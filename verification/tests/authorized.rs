//! Authorized writes and statements: scopes, allowances, receipts and refusals.

use fgdb::authorized_apply::MutationIntent;
use fgdb::authorized_deletion::DeleteProposal;
use fgdb::authorized_program::{ProgramInterrupted, StatementKind, StepReceipt};
use fgdb::authorized_statements::ProgramFault;
use fgdb::batch::{PendingRow, WriteBatch, WriteMismatchPolicy};
use fgdb::collector::{Callback, Collected, Collector, Prepared, Proposed, Recorder, Statement};
use fgdb::controls::Control;
use fgdb::database::Database;
use fgdb::draft::{Draft, End, MergeTarget, StepDraft, VertexAction};
use fgdb::edge_merge::{
    GraphEdgeMerge, GraphEdgeMergeOutcome, GraphEdgeMergePolicy, GraphEdgeMergeStats, Selection, SelectedValue,
};
use fgdb::errors::{DatabaseState, Denial, LimitDimension, WriteError, WriteTxnError};
use fgdb::finish::CompletionStep;
use fgdb::graph::{AdjacencyEntry, DeltaRow, EdgeRecord, VertexRow};
use fgdb::identity::IdentityState;
use fgdb::ids::{
    CanonicalScalar, CommitSeq, EId, ElementId, LabelId, PropertyKeyId, RelationId, VId,
};
use fgdb::idset::IdSet;
use fgdb::publisher::{Fence, Publication, Publisher, PublisherRecord};
use fgdb::queries::{BindError, BoundPlan, Observations, QueryAnswer};
use fgdb::scope::Predicates;
use fgdb::selection::{ControlError, SelectionError, SelectionSource};
use fgdb::selector::{
    Chosen, PairSelector, ScopedRecord, ScopedSelector, SelectedPairs, SelectorRecord,
};
use fgdb::session::{EdgeImage, Fields, Host, IdentityKind, Metering, Session};
use fgdb::statement::{Fault, ProgramStats, StatementStats, QueryPolicy, QueryStats};
use fgdb::template::{Coordinate, Template};
use fgdb::txn::{EmbeddedTxnCompletion, PreparedWrite, WriteTxn};
use std::cell::{Cell, RefCell};
use std::collections::{BTreeMap, BTreeSet};
use std::rc::Rc;

/// What a capability has left, and whether it is still live.
struct Budget {
    seen: u64,
    stop: Option<u64>,
    refusal: WriteTxnError,
    work: u64,
    nodes: u64,
    rows: u64,
}

impl Budget {
    fn poll(&mut self) -> Result<(), WriteTxnError> {
        self.seen += 1;
        match self.stop {
            Some(stop) if self.seen >= stop => Err(self.refusal),
            _ => Ok(()),
        }
    }

    fn charge(&mut self, dimension: LimitDimension, amount: u64) -> Result<(), Denial> {
        let left = match dimension {
            LimitDimension::Work => &mut self.work,
            LimitDimension::Nodes => &mut self.nodes,
            LimitDimension::Rows => &mut self.rows,
        };
        if *left < amount {
            return Err(Denial::LimitExceeded(dimension));
        }
        *left -= amount;
        Ok(())
    }
}

/// The process around a transaction: cancellation, allowances, a scope, the native
/// evaluator and an allocator.
struct Native {
    budget: Rc<RefCell<Budget>>,
    labels: Option<Vec<LabelId>>,
    relations: Option<Vec<RelationId>>,
    properties: Option<Vec<PropertyKeyId>>,
    issued: u128,
    repeats: bool,
}

impl Native {
    fn new() -> Native {
        Native {
            budget: Rc::new(RefCell::new(Budget {
                seen: 0,
                stop: None,
                refusal: WriteTxnError::NoPreparedWrite,
                work: u64::MAX,
                nodes: u64::MAX,
                rows: u64::MAX,
            })),
            labels: None,
            relations: None,
            properties: None,
            issued: 1000,
            repeats: false,
        }
    }

    fn sees(&self, row: &VertexRow) -> bool {
        match &self.labels {
            None => true,
            Some(labels) => row.labels.iter().any(|label| labels.contains(label)),
        }
    }

    fn reaches(&self, image: &EdgeImage) -> bool {
        let relation = match &self.relations {
            None => true,
            Some(relations) => relations.contains(&image.edge.entry.relation),
        };
        relation && self.sees(&image.src) && self.sees(&image.dst)
    }

    fn writes(&self, properties: &IdSet) -> bool {
        match &self.properties {
            None => true,
            Some(keys) => {
                (0..properties.len()).all(|i| keys.iter().any(|key| key.0 as u128 == properties.at(i)))
            }
        }
    }
}

/// Evaluate all intents in order, and keep their canonical net effects.
fn evaluate(database: &Database, staged: &[WriteBatch]) -> Result<PreparedWrite, WriteError> {
    let basis = database.snapshot_frontier();
    let vertex_map = database.vertex_map_at(basis).unwrap();
    let edge_map = database.edge_map_at(basis).unwrap();
    let mut vertices: BTreeMap<u128, VertexRow> = BTreeMap::new();
    for i in 0..vertex_map.len() {
        vertices.insert(vertex_map.key_at(i), vertex_map.value_at(i).copy());
    }
    let mut edges: BTreeMap<u128, EdgeRecord> = BTreeMap::new();
    for i in 0..edge_map.len() {
        edges.insert(edge_map.key_at(i), edge_map.value_at(i).copy());
    }
    let mut cascaded: BTreeMap<u128, BTreeSet<u128>> = BTreeMap::new();
    let mut ordinal: u64 = 0;
    for batch in staged {
        for row in &batch.rows {
            ordinal += 1;
            match row {
                PendingRow::Vertex { vid, labels, props, ensure } => {
                    if vertices.contains_key(&vid.0) {
                        if !ensure {
                            return Err(WriteError::Evaluation(1));
                        }
                    } else {
                        let mut labels = labels.clone();
                        labels.sort_by_key(|label| label.0);
                        let mut props = props.clone();
                        props.sort_by_key(|prop| prop.0 .0);
                        vertices.insert(
                            vid.0,
                            VertexRow { vid: *vid, birth_ordinal: ordinal, labels, props },
                        );
                    }
                }
                PendingRow::Edge { eid, src, dst, props, ensure } => {
                    if !vertices.contains_key(&src.0) || !vertices.contains_key(&dst.0) {
                        return Err(WriteError::Evaluation(2));
                    }
                    let present = edges.values().any(|edge| {
                        edge.entry.src == *src
                            && edge.entry.dst == *dst
                            && edge.entry.relation == batch.relation
                    });
                    if *ensure && present {
                        continue;
                    }
                    if edges.contains_key(&eid.0) {
                        return Err(WriteError::Evaluation(3));
                    }
                    let mut props = props.clone();
                    props.sort_by_key(|prop| prop.0 .0);
                    edges.insert(
                        eid.0,
                        EdgeRecord {
                            entry: AdjacencyEntry {
                                src: *src,
                                relation: batch.relation,
                                dst: *dst,
                                eid: *eid,
                                created_at: basis,
                                retired_at: None,
                            },
                            props,
                        },
                    );
                }
                PendingRow::DeleteVertex { vid } => {
                    if vertices.remove(&vid.0).is_none() {
                        return Err(WriteError::Evaluation(4));
                    }
                    let incident: Vec<u128> = edges
                        .values()
                        .filter(|edge| edge.entry.src == *vid || edge.entry.dst == *vid)
                        .map(|edge| edge.entry.eid.0)
                        .collect();
                    for eid in incident {
                        edges.remove(&eid);
                        cascaded.entry(vid.0).or_default().insert(eid);
                    }
                }
                PendingRow::DeleteEdge { eid, if_present } => {
                    if edges.remove(&eid.0).is_none() && !if_present {
                        return Err(WriteError::Evaluation(5));
                    }
                }
                PendingRow::SetLabel { vid, label, present } => match vertices.get_mut(&vid.0) {
                    None => return Err(WriteError::Evaluation(6)),
                    Some(row) => {
                        row.labels.retain(|held| held != label);
                        if *present {
                            row.labels.push(*label);
                        }
                        row.labels.sort_by_key(|label| label.0);
                    }
                },
                PendingRow::SetProperty { vid, key, value } => match vertices.get_mut(&vid.0) {
                    None => return Err(WriteError::Evaluation(7)),
                    Some(row) => assign(&mut row.props, *key, *value),
                },
                PendingRow::SetEdgeProperty { eid, key, value } => match edges.get_mut(&eid.0) {
                    None => return Err(WriteError::Evaluation(8)),
                    Some(row) => assign(&mut row.props, *key, *value),
                },
                PendingRow::CompareAndSet { elem, key, expected, value, policy } => {
                    let props = match elem {
                        ElementId::Vertex(vid) => vertices.get_mut(&vid.0).map(|row| &mut row.props),
                        ElementId::Edge(eid) => edges.get_mut(&eid.0).map(|row| &mut row.props),
                    };
                    match props {
                        None => return Err(WriteError::Evaluation(9)),
                        Some(props) => {
                            let held = props.iter().find(|prop| prop.0 == *key).map(|prop| prop.1);
                            if held == *expected {
                                assign(props, *key, Some(*value));
                            } else if *policy == WriteMismatchPolicy::AbortWrite {
                                return Err(WriteError::Evaluation(10));
                            }
                        }
                    }
                }
            }
        }
    }
    let mut shared: Vec<DeltaRow> = Vec::new();
    let mut slices: BTreeMap<u64, Vec<DeltaRow>> = BTreeMap::new();
    for i in 0..vertex_map.len() {
        let before = vertex_map.value_at(i);
        match vertices.get(&before.vid.0) {
            None => {
                let retired = (0..edge_map.len())
                    .map(|e| edge_map.key_at(e))
                    .filter(|eid| cascaded.get(&before.vid.0).is_some_and(|set| set.contains(eid)))
                    .map(EId)
                    .collect();
                shared.push(DeltaRow::DeleteVertex {
                    vid: before.vid,
                    sorted_retired_incident_edges: retired,
                });
            }
            Some(after) => {
                for label in before.labels.iter().filter(|label| !after.labels.contains(label)) {
                    shared.push(DeltaRow::LabelMembership {
                        vid: before.vid,
                        label: *label,
                        after: false,
                    });
                }
                for label in after.labels.iter().filter(|label| !before.labels.contains(label)) {
                    shared.push(DeltaRow::LabelMembership {
                        vid: before.vid,
                        label: *label,
                        after: true,
                    });
                }
                let elem = ElementId::Vertex(before.vid);
                shared.extend(changed_properties(elem, &before.props, &after.props));
            }
        }
    }
    for (key, after) in &vertices {
        if vertex_map.get(*key).is_none() {
            shared.push(DeltaRow::CreateVertex {
                vid: after.vid,
                birth_ordinal: after.birth_ordinal,
                labels: after.labels.clone(),
                props: after.props.clone(),
            });
        }
    }
    for i in 0..edge_map.len() {
        let before = edge_map.value_at(i);
        let slice = slices.entry(before.entry.relation.0).or_default();
        match edges.get(&before.entry.eid.0) {
            None => {
                if !cascaded.values().any(|set| set.contains(&before.entry.eid.0)) {
                    slice.push(DeltaRow::DeleteEdge { eid: before.entry.eid });
                }
            }
            Some(after) => {
                let elem = ElementId::Edge(before.entry.eid);
                slice.extend(changed_properties(elem, &before.props, &after.props));
            }
        }
    }
    for (key, after) in &edges {
        if edge_map.get(*key).is_none() {
            slices.entry(after.entry.relation.0).or_default().push(DeltaRow::CreateEdge {
                eid: after.entry.eid,
                src: after.entry.src,
                relation: after.entry.relation,
                dst: after.entry.dst,
                props: after.props.clone(),
            });
        }
    }
    let mut coordinates = vec![Coordinate { relation: None, rows: shared }];
    for (relation, rows) in slices {
        coordinates.push(Coordinate { relation: Some(RelationId(relation)), rows });
    }
    coordinates.retain(|coordinate| !coordinate.rows.is_empty());
    Ok(PreparedWrite { template: Template { coordinates }, basis, owner: database.owner })
}

fn assign(
    props: &mut Vec<(PropertyKeyId, CanonicalScalar)>,
    key: PropertyKeyId,
    value: Option<CanonicalScalar>,
) {
    props.retain(|prop| prop.0 != key);
    if let Some(value) = value {
        props.push((key, value));
    }
    props.sort_by_key(|prop| prop.0 .0);
}

fn changed_properties(
    elem: ElementId,
    before: &[(PropertyKeyId, CanonicalScalar)],
    after: &[(PropertyKeyId, CanonicalScalar)],
) -> Vec<DeltaRow> {
    let mut rows = Vec::new();
    for (key, _) in before {
        if !after.iter().any(|prop| prop.0 == *key) {
            rows.push(DeltaRow::Property { elem, property: *key, after: None });
        }
    }
    for prop in after {
        if !before.contains(prop) {
            rows.push(DeltaRow::Property { elem, property: prop.0, after: Some(prop.1) });
        }
    }
    rows
}

impl Host for Native {
    fn poll(&mut self) -> Result<(), WriteTxnError> {
        self.budget.borrow_mut().poll()
    }

    fn poll_query(&mut self) -> Result<(), WriteTxnError> {
        self.poll()
    }

    fn charge(&mut self, dimension: LimitDimension, amount: u64) -> Result<(), Denial> {
        self.budget.borrow_mut().charge(dimension, amount)
    }

    fn check_vertex(
        &mut self,
        before: Option<&VertexRow>,
        after: Option<&VertexRow>,
        fields: &Fields,
    ) -> Result<(), Denial> {
        self.charge(LimitDimension::Nodes, 1)?;
        let admitted = before.map_or(true, |row| self.sees(row))
            && after.map_or(true, |row| self.sees(row))
            && self.writes(&fields.properties);
        if admitted {
            Ok(())
        } else {
            Err(Denial::ScopeDenied)
        }
    }

    fn check_edge(
        &mut self,
        before: Option<&EdgeImage>,
        after: Option<&EdgeImage>,
        properties: &IdSet,
    ) -> Result<(), Denial> {
        self.charge(LimitDimension::Nodes, 1)?;
        let admitted = before.map_or(true, |image| self.reaches(image))
            && after.map_or(true, |image| self.reaches(image))
            && self.writes(properties);
        if admitted {
            Ok(())
        } else {
            Err(Denial::ScopeDenied)
        }
    }

    fn prepare(
        &mut self,
        database: &Database,
        staged: &Vec<WriteBatch>,
    ) -> Result<PreparedWrite, WriteTxnError> {
        let mut write = crate::evaluate(database, staged).map_err(WriteTxnError::Write)?;
        if self.repeats {
            let again = write.template.copy();
            write.template.coordinates.extend(again.coordinates);
        }
        Ok(write)
    }

    fn allocate(&mut self, kind: IdentityKind, _ordinal: u64) -> Result<ElementId, WriteTxnError> {
        self.issued += 1;
        Ok(match kind {
            IdentityKind::Vertex => ElementId::Vertex(VId(self.issued)),
            IdentityKind::Edge => ElementId::Edge(EId(self.issued)),
        })
    }

    fn bind(&mut self, source: &String) -> Result<BoundPlan, BindError> {
        match source.as_str() {
            "MATCH (n:L) RETURN n" => Ok(BoundPlan { relation: None, digest: 1 }),
            "MATCH (n:Unknown) RETURN n" => Err(BindError::Unbound(7)),
            _ => Err(BindError::Parse(3)),
        }
    }

    fn evaluate(
        &mut self,
        transaction: &WriteTxn,
        database: &Database,
        _plan: &BoundPlan,
    ) -> QueryAnswer {
        let map = database.vertex_map_at(transaction.basis).unwrap();
        let rows: Vec<VId> = (0..map.len())
            .filter(|i| map.value_at(*i).labels.contains(&LabelId(1)))
            .map(|i| VId(map.key_at(i)))
            .collect();
        QueryAnswer {
            observed: Observations {
                elements: rows.iter().map(|vid| ElementId::Vertex(*vid)).collect(),
                expansions: vec![],
                labels: vec![LabelId(1)],
                vertices: false,
                edges: false,
            },
            rows: Ok(rows),
        }
    }
}

/// Intents, by name.
trait Intents {
    fn row(&mut self, row: PendingRow) -> &mut Self;

    fn create_vertex(
        &mut self,
        vid: VId,
        labels: Vec<LabelId>,
        props: Vec<(PropertyKeyId, CanonicalScalar)>,
    ) -> &mut Self {
        self.row(PendingRow::Vertex { vid, labels, props, ensure: false })
    }

    fn ensure_vertex(
        &mut self,
        vid: VId,
        labels: Vec<LabelId>,
        props: Vec<(PropertyKeyId, CanonicalScalar)>,
    ) -> &mut Self {
        self.row(PendingRow::Vertex { vid, labels, props, ensure: true })
    }

    fn add_edge(
        &mut self,
        eid: EId,
        src: VId,
        dst: VId,
        props: Vec<(PropertyKeyId, CanonicalScalar)>,
    ) -> &mut Self {
        self.row(PendingRow::Edge { eid, src, dst, props, ensure: false })
    }

    fn ensure_edge_by_triple(
        &mut self,
        eid: EId,
        src: VId,
        dst: VId,
        props: Vec<(PropertyKeyId, CanonicalScalar)>,
    ) -> &mut Self {
        self.row(PendingRow::Edge { eid, src, dst, props, ensure: true })
    }

    fn delete_vertex(&mut self, vid: VId) -> &mut Self {
        self.row(PendingRow::DeleteVertex { vid })
    }

    fn delete_edge(&mut self, eid: EId) -> &mut Self {
        self.row(PendingRow::DeleteEdge { eid, if_present: false })
    }

    fn delete_edge_if_present(&mut self, eid: EId) -> &mut Self {
        self.row(PendingRow::DeleteEdge { eid, if_present: true })
    }

    fn set_vertex_label(&mut self, vid: VId, label: LabelId, present: bool) -> &mut Self {
        self.row(PendingRow::SetLabel { vid, label, present })
    }

    fn set_vertex_property(
        &mut self,
        vid: VId,
        key: PropertyKeyId,
        value: Option<CanonicalScalar>,
    ) -> &mut Self {
        self.row(PendingRow::SetProperty { vid, key, value })
    }

    fn set_edge_property(
        &mut self,
        eid: EId,
        key: PropertyKeyId,
        value: Option<CanonicalScalar>,
    ) -> &mut Self {
        self.row(PendingRow::SetEdgeProperty { eid, key, value })
    }

    fn compare_and_set(
        &mut self,
        elem: ElementId,
        key: PropertyKeyId,
        expected: Option<CanonicalScalar>,
        value: CanonicalScalar,
        policy: WriteMismatchPolicy,
    ) -> &mut Self {
        self.row(PendingRow::CompareAndSet { elem, key, expected, value, policy })
    }
}

impl Intents for WriteBatch {
    fn row(&mut self, row: PendingRow) -> &mut Self {
        self.rows.push(row);
        self
    }
}

fn open() -> Database {
    Database::open_memory(1, 7)
}

fn free() -> Session<Native> {
    Session::new(Native::new(), Metering::Free)
}

/// Publish what a completion accepted.
fn publish(
    transaction: &mut WriteTxn,
    database: &mut Database,
    step: CompletionStep,
) -> Result<EmbeddedTxnCompletion, WriteTxnError> {
    match step {
        CompletionStep::Closed(completion) => Ok(completion),
        CompletionStep::Publish { prepared, guard } => {
            let seq = database.publish(prepared.template);
            transaction.settle(database, guard, Some(Ok(seq))).unwrap()
        }
    }
}

fn finish(
    transaction: &mut WriteTxn,
    database: &mut Database,
) -> Result<EmbeddedTxnCompletion, WriteTxnError> {
    let step = transaction.complete_controlled(database, false, &mut free())?;
    publish(transaction, database, step)
}

fn committed(completion: EmbeddedTxnCompletion) -> CommitSeq {
    match completion {
        EmbeddedTxnCompletion::WriteCommitted { commit_seq } => commit_seq,
        EmbeddedTxnCompletion::ReadClosed { .. } => panic!("nothing was written"),
    }
}

fn commit(transaction: &mut WriteTxn, database: &mut Database) -> Result<CommitSeq, WriteTxnError> {
    let step = transaction.complete_controlled(database, true, &mut free())?;
    publish(transaction, database, step).map(committed)
}

fn write(
    transaction: &mut WriteTxn,
    database: &Database,
    batches: Vec<WriteBatch>,
) -> Result<(), WriteTxnError> {
    transaction.write_ordered(database, batches, &mut free())
}

/// One whole transaction.
fn seed(database: &mut Database, batch: WriteBatch) -> CommitSeq {
    let mut transaction = WriteTxn::begin(database).unwrap();
    write(&mut transaction, database, vec![batch]).unwrap();
    commit(&mut transaction, database).unwrap()
}

fn vertex(database: &Database, vid: VId) -> Option<VertexRow> {
    database.vertex_at(vid, database.snapshot_frontier()).unwrap()
}

fn edge(database: &Database, eid: EId) -> Option<EdgeRecord> {
    database.edge_at(eid, database.snapshot_frontier()).unwrap()
}

fn number(value: i64) -> CanonicalScalar {
    CanonicalScalar::Int(value)
}

const NAMESPACE: u64 = 7;

#[derive(Clone, Copy, PartialEq)]
enum Rights {
    Read,
    Write,
    ReadWrite,
}

/// What a capability grants.
#[derive(Clone)]
struct Grant {
    labels: Option<Vec<LabelId>>,
    relations: Option<Vec<RelationId>>,
    properties: Option<Vec<PropertyKeyId>>,
    rights: Rights,
    nodes: u64,
    work: u64,
    rows: u64,
    expires: Option<u64>,
}

impl Grant {
    fn new(rights: Rights) -> Grant {
        Grant {
            labels: None,
            relations: None,
            properties: None,
            rights,
            nodes: 100_000,
            work: 1_000_000,
            rows: 100,
            expires: None,
        }
    }

    fn verified(&self) -> Result<Predicates, Denial> {
        if self.rights == Rights::Read {
            return Err(Denial::PermissionDenied);
        }
        Ok(Predicates {
            label_clauses: self.labels.iter().cloned().collect(),
            relations: self.relations.clone(),
            properties: self.properties.clone(),
            denied_properties: vec![],
            can_read: self.rights == Rights::ReadWrite,
        })
    }

    fn host(&self) -> Native {
        let native = Native::new();
        {
            let mut budget = native.budget.borrow_mut();
            budget.nodes = self.nodes;
            budget.work = self.work;
            budget.rows = self.rows;
            budget.stop = self.expires;
            budget.refusal = WriteTxnError::Authorization(Denial::Expired);
        }
        Native {
            labels: self.labels.clone(),
            relations: self.relations.clone(),
            properties: self.properties.clone(),
            ..native
        }
    }

    fn limited(&self, dimension: LimitDimension, limit: u64) -> Grant {
        let mut grant = self.clone();
        match dimension {
            LimitDimension::Work => grant.work = limit,
            LimitDimension::Nodes => grant.nodes = limit,
            LimitDimension::Rows => grant.rows = limit,
        }
        grant
    }

    fn expiring(&self, at: u64) -> Grant {
        Grant { expires: Some(at), ..self.clone() }
    }
}

/// A publisher that makes every write durable.
struct Durable;

impl Publisher for Durable {
    fn publish(&mut self, prepared: &PreparedWrite, commit_seq: CommitSeq) -> Publication {
        assert!(prepared.template.is_wf());
        assert!(commit_seq.0 > prepared.basis.0);
        Publication::Durable
    }
}

fn durable() -> PublisherRecord<Durable> {
    PublisherRecord::new(Durable)
}

fn write_ordered_authorized(
    db: &mut Database,
    grant: &Grant,
    batches: Vec<WriteBatch>,
) -> Result<CommitSeq, WriteTxnError> {
    let mut session = Session::new(grant.host(), Metering::Signed);
    let verified = grant.verified();
    db.write_ordered_authorized(NAMESPACE, &verified, &batches, &mut durable(), &mut session)
}

fn write_authorized(
    db: &mut Database,
    grant: &Grant,
    batch: WriteBatch,
) -> Result<CommitSeq, WriteTxnError> {
    let mut session = Session::new(grant.host(), Metering::Signed);
    let verified = grant.verified();
    db.write_authorized(NAMESPACE, &verified, batch, &mut durable(), &mut session)
}

/// Everything that a database shows.
fn image(db: &Database) -> String {
    let at = db.snapshot_frontier();
    let vertices = db.vertex_map_at(at).unwrap();
    let edges = db.edge_map_at(at).unwrap();
    let rows: Vec<&VertexRow> = (0..vertices.len()).map(|i| vertices.value_at(i)).collect();
    let records: Vec<&EdgeRecord> = (0..edges.len()).map(|i| edges.value_at(i)).collect();
    format!("{at:?} {rows:?} {records:?}")
}

fn counts(db: &Database) -> (usize, usize) {
    let at = db.snapshot_frontier();
    (db.vertex_map_at(at).unwrap().len(), db.edge_map_at(at).unwrap().len())
}

/// The masked graph that a statement sees, and what the statement calls back.
struct View {
    vertices: Vec<VertexRow>,
    edges: Vec<EdgeRecord>,
    callbacks: RefCell<Vec<Callback>>,
    created: Cell<usize>,
    rows: Cell<usize>,
}

fn value(props: &[(PropertyKeyId, CanonicalScalar)], key: PropertyKeyId) -> Option<i64> {
    match props.iter().find(|prop| prop.0 == key) {
        Some((_, CanonicalScalar::Int(value))) => Some(*value),
        _ => None,
    }
}

impl View {
    fn vertex(&self, vid: VId) -> Option<&VertexRow> {
        self.vertices.iter().find(|row| row.vid == vid)
    }

    fn labelled(&self, label: LabelId) -> Vec<&VertexRow> {
        self.vertices.iter().filter(|row| row.labels.contains(&label)).collect()
    }

    /// Edges of one relation between labelled endpoints.
    fn between(&self, relation: RelationId, label: LabelId) -> Vec<(&VertexRow, &EdgeRecord, &VertexRow)> {
        self.edges
            .iter()
            .filter(|edge| edge.entry.relation == relation)
            .filter_map(|edge| {
                let src = self.vertex(edge.entry.src)?;
                let dst = self.vertex(edge.entry.dst)?;
                (src.labels.contains(&label) && dst.labels.contains(&label))
                    .then_some((src, edge, dst))
            })
            .collect()
    }

    /// Ask for one identity. What comes back is the position of its creation.
    fn issue(&self, kind: IdentityKind) -> usize {
        self.callbacks.borrow_mut().push(Callback::Issue(kind));
        self.created.replace(self.created.get() + 1)
    }

    /// Note how many rows were selected.
    fn selected(&self, rows: usize) {
        self.rows.set(rows);
    }
}

/// Mask a source: each visible vertex is a node, each visible edge a unit of work,
/// and each hidden record a poll.
fn masked(
    source: &Option<SelectionSource>,
    scope: &Predicates,
    reads_edges: bool,
    transaction: &WriteTxn,
    database: &Database,
) -> View {
    let mut vertices = Vec::new();
    let mut edges = Vec::new();
    match source {
        None => {}
        Some(SelectionSource::Committed) => {
            let rows = database.vertex_map_at(transaction.basis).unwrap();
            vertices.extend((0..rows.len()).map(|i| rows.value_at(i).copy()));
            if reads_edges {
                let records = database.edge_map_at(transaction.basis).unwrap();
                edges.extend((0..records.len()).map(|i| records.value_at(i).copy()));
            }
        }
        Some(SelectionSource::Overlay { vertices: rows, edges: records }) => {
            vertices.extend(rows.iter().map(|row| row.copy()));
            edges.extend(records.iter().map(|record| record.copy()));
        }
    }
    let mut callbacks = Vec::new();
    let mut pay = |visible: bool, control: Control| {
        let paid = if visible { control } else { Control::Poll };
        callbacks.push(Callback::Control(paid));
        visible
    };
    vertices.retain_mut(|row| {
        row.props.retain(|prop| scope.allows_property(prop.0));
        pay(scope.allows_vertex(&row.labels), Control::Node)
    });
    edges.retain_mut(|record| {
        record.props.retain(|prop| scope.allows_property(prop.0));
        let shown = |vid: VId| vertices.iter().any(|row| row.vid == vid);
        let entry = record.entry;
        let visible =
            scope.allows_relation(entry.relation) && shown(entry.src) && shown(entry.dst);
        pay(visible, Control::Work)
    });
    View {
        vertices,
        edges,
        callbacks: RefCell::new(callbacks),
        created: Cell::new(0),
        rows: Cell::new(0),
    }
}

/// A collector over the masked graph.
struct Matcher<F> {
    statement: F,
}

impl<F: FnMut(usize, &View) -> Result<StepDraft, Fault>> Collector for Matcher<F> {
    fn propose(
        &mut self,
        index: usize,
        prepared: &Prepared,
        source: &Option<SelectionSource>,
        scope: &Predicates,
        transaction: &WriteTxn,
        database: &Database,
    ) -> Collected {
        let standalone = prepared.kind == StatementKind::Insert { selects: false };
        assert_eq!(source.is_none(), standalone);
        assert_eq!(prepared.statement.id, index as u64);
        let view =
            masked(source, scope, prepared.statement.reads_edges, transaction, database);
        let outcome = match (self.statement)(index, &view) {
            Ok(draft) => Ok(Proposed { stats: counted(&view, &draft), draft }),
            Err(fault) => Err(SelectionError::Native(fault)),
        };
        Collected { callbacks: view.callbacks.into_inner(), outcome }
    }
}

/// What an evaluation counts of its own draft.
fn counted(view: &View, draft: &StepDraft) -> StatementStats {
    let mut stats = StatementStats {
        usage: stats(view, view.rows.get()),
        effects: 0,
        created_vertices: 0,
        created_edges: 0,
        target_vertices: 0,
        target_edges: 0,
    };
    let created = |target: &MergeTarget| u64::from(matches!(target, MergeTarget::Missing { .. }));
    match draft {
        StepDraft::Mutation { intents, .. } => {
            let mut vertices = BTreeSet::new();
            let mut edges = BTreeSet::new();
            for intent in intents {
                match intent {
                    MutationIntent::Label { vertex, .. }
                    | MutationIntent::Property { vertex, .. }
                    | MutationIntent::DetachDelete { vertex } => vertices.insert(vertex.0),
                    MutationIntent::EdgeProperty { edge, .. } => edges.insert(edge.0),
                };
            }
            stats.effects = intents.len() as u64;
            stats.target_vertices = vertices.len() as u64;
            stats.target_edges = edges.len() as u64;
        }
        StepDraft::Insert { drafts, .. } => {
            let edges = drafts.iter().filter(|it| matches!(it, Draft::Edge { .. })).count();
            stats.created_vertices = (drafts.len() - edges) as u64;
            stats.created_edges = edges as u64;
        }
        StepDraft::Delete { proposal } => {
            stats.usage = proposal.stats;
            stats.target_vertices = proposal.vertices.len() as u64;
            stats.target_edges = proposal.edges.len() as u64;
            stats.effects = stats.target_vertices + stats.target_edges;
        }
        StepDraft::VertexMerge { target, .. } => stats.created_vertices = created(target),
        StepDraft::VertexUpsert { target, actions, .. } => {
            stats.created_vertices = created(target);
            stats.effects = actions.as_ref().map_or(0, |actions| actions.len() as u64);
        }
        StepDraft::Edge => {}
    }
    stats
}

/// The prepared statement at a position.
fn statement_under(id: usize, policy: QueryPolicy) -> Statement {
    Statement { id: id as u64, reads_edges: true, policy, max_vertices: 100, max_edges: 100 }
}

fn identities() -> RefCell<IdentityState> {
    RefCell::new(IdentityState { frontier: CommitSeq(0), vertex: 0, edge: 0 })
}

fn authorization(fault: Fault) -> Denial {
    match fault {
        Fault::Source(WriteTxnError::Authorization(denial))
        | Fault::Staging(WriteTxnError::Authorization(denial))
        | Fault::Interrupted(WriteTxnError::Authorization(denial))
        | Fault::IdentitySource(WriteTxnError::Authorization(denial))
        | Fault::Preflight(WriteTxnError::Authorization(denial)) => denial,
        other => panic!("expected an authorization refusal, got {other:?}"),
    }
}

#[derive(Clone, Copy)]
enum Kind {
    Mutation,
    Insert { selects: bool },
    Delete,
}

type Outcome = Result<(StepReceipt, EmbeddedTxnCompletion, StatementStats), Fault>;

/// Run one authorized statement to its completion.
fn execute_with(
    db: &mut Database,
    grant: &Grant,
    kind: Kind,
    returning: bool,
    identities: &RefCell<IdentityState>,
    statement: impl FnMut(usize, &View) -> Result<StepDraft, Fault>,
) -> (Outcome, u64) {
    execute_under(db, grant, kind, returning, policy(), identities, statement)
}

/// Run one authorized statement under a native allowance.
fn execute_under(
    db: &mut Database,
    grant: &Grant,
    kind: Kind,
    returning: bool,
    policy: QueryPolicy,
    identities: &RefCell<IdentityState>,
    statement: impl FnMut(usize, &View) -> Result<StepDraft, Fault>,
) -> (Outcome, u64) {
    let mut session = Session::new(grant.host(), Metering::SignedQuery);
    let mut collector = Recorder::new(Matcher { statement });
    let verified = grant.verified();
    let form = statement_under(0, policy);
    let (v, i) = (&verified, &mut *identities.borrow_mut());
    let (c, p, s) = (&mut collector, &mut durable(), &mut session);
    let done = match (kind, returning) {
        (Kind::Mutation, false) => {
            db.execute_graph_mutation_authorized(NAMESPACE, v, form, i, c, p, s)
        }
        (Kind::Mutation, true) => {
            db.execute_graph_mutation_returning_authorized(NAMESPACE, v, form, i, c, p, s)
        }
        (Kind::Insert { selects }, false) => {
            db.execute_graph_insert_authorized(NAMESPACE, v, selects, form, i, c, p, s)
        }
        (Kind::Insert { selects }, true) => {
            db.execute_graph_insert_returning_authorized(NAMESPACE, v, selects, form, i, c, p, s)
        }
        (Kind::Delete, false) => {
            db.execute_graph_delete_authorized(NAMESPACE, v, form, i, c, p, s)
        }
        (Kind::Delete, true) => {
            db.execute_graph_delete_returning_authorized(NAMESPACE, v, form, i, c, p, s)
        }
    };
    let seen = session.host().budget.borrow().seen;
    (done.map(|((stats, receipt), completion)| (receipt, completion, stats)), seen)
}

fn execute(
    db: &mut Database,
    grant: &Grant,
    kind: Kind,
    returning: bool,
    statement: impl FnMut(usize, &View) -> Result<StepDraft, Fault>,
) -> Outcome {
    execute_with(db, grant, kind, returning, &identities(), statement).0
}

fn targets(receipt: &StepReceipt) -> (Vec<VId>, Vec<EId>) {
    match receipt {
        StepReceipt::Targets { vertices, edges } | StepReceipt::Deleted { vertices, edges, .. } => {
            (vertices.clone(), edges.clone())
        }
        StepReceipt::Vertex { vertex, .. } => (vec![*vertex], vec![]),
    }
}

/// The least allowance under which an attempt succeeds.
fn floor(bound: u64, mut attempt: impl FnMut(u64) -> bool) -> u64 {
    let (mut low, mut high) = (0, bound);
    while low < high {
        let middle = low + (high - low) / 2;
        if attempt(middle) {
            high = middle;
        } else {
            low = middle + 1;
        }
    }
    assert!(low > 0 && low < bound);
    low
}

fn policy() -> QueryPolicy {
    QueryPolicy {
        max_work_units: 1_000_000,
        max_scratch_entries: 100_000,
        max_snapshot_records: Some(10_000),
        max_result_rows: Some(10_000),
        signed: false,
    }
}

fn stats(view: &View, rows: usize) -> QueryStats {
    QueryStats {
        result_rows: rows as u64,
        snapshot_records: (view.vertices.len() + view.edges.len()) as u64,
        work_units: view.vertices.len() as u64,
        scratch_entries: rows as u64,
    }
}

const L: LabelId = LabelId(1);
const HIDDEN: LabelId = LabelId(2);
const P: PropertyKeyId = PropertyKeyId(1);
const SECRET: PropertyKeyId = PropertyKeyId(2);
const Q: PropertyKeyId = PropertyKeyId(3);
const R: RelationId = RelationId(1);
const S: RelationId = RelationId(2);
const T: RelationId = RelationId(3);
const OTHER: RelationId = RelationId(2);
const H: RelationId = RelationId(9);

fn ordered_grant() -> Grant {
    Grant {
        labels: Some(vec![L]),
        relations: Some(vec![R, S, T]),
        properties: Some(vec![P]),
        nodes: 100,
        work: 4096,
        rows: 0,
        ..Grant::new(Rights::Write)
    }
}

fn dependent_batches() -> Vec<WriteBatch> {
    let mut first = WriteBatch::new(R);
    first.create_vertex(VId(1), vec![L], vec![(P, number(1))]);
    first.create_vertex(VId(2), vec![L], vec![]);
    first.add_edge(EId(10), VId(1), VId(2), vec![(P, number(10))]);
    let mut second = WriteBatch::new(S);
    second.set_vertex_property(VId(1), P, Some(number(2)));
    second.create_vertex(VId(3), vec![L], vec![]);
    second.add_edge(EId(20), VId(2), VId(3), vec![]);
    let mut third = WriteBatch::new(T);
    third.compare_and_set(
        ElementId::Vertex(VId(1)),
        P,
        Some(number(2)),
        number(3),
        WriteMismatchPolicy::AbortWrite,
    );
    // Identity-addressed mutations keep the actual coordinate.
    third.set_edge_property(EId(10), P, Some(number(11)));
    third.add_edge(EId(30), VId(3), VId(1), vec![]);
    let mut last = WriteBatch::new(R);
    last.ensure_edge_by_triple(EId(99), VId(1), VId(2), vec![(P, number(99))]);
    vec![first, second, third, last]
}

fn neighbours(database: &Database, src: VId, relation: RelationId) -> Vec<VId> {
    WriteTxn::begin(database).unwrap().neighbours(database, src, relation).unwrap()
}

fn assert_graph(db: &Database, seq: CommitSeq) {
    assert_eq!(db.frontier().unwrap(), seq);
    assert_eq!(vertex(db, VId(1)).unwrap().props, vec![(P, number(3))]);
    for vid in [VId(1), VId(2), VId(3)] {
        assert_eq!(vertex(db, vid).unwrap().labels, vec![L]);
    }
    assert_eq!(edge(db, EId(10)).unwrap().props, vec![(P, number(11))]);
    assert_eq!(neighbours(db, VId(1), R), vec![VId(2)]);
    assert_eq!(neighbours(db, VId(2), S), vec![VId(3)]);
    assert_eq!(neighbours(db, VId(3), T), vec![VId(1)]);
    assert!(edge(db, EId(99)).is_none());
}

#[test]
fn dependent_relations_authorize_original_intents_and_reopen_one_commit() {
    let mut db = open();
    let initial = db.frontier().unwrap();
    let seq = write_ordered_authorized(&mut db, &ordered_grant(), dependent_batches()).unwrap();
    assert_eq!(seq.0, initial.0 + 1);
    assert_graph(&db, seq);
}

#[test]
fn forbidden_noop_in_another_relation_discards_all_prefix_effects() {
    let mut db = open();
    let mut first = WriteBatch::new(R);
    first.create_vertex(VId(9), vec![L], vec![(SECRET, number(99))]);
    seed(&mut db, first);
    let initial = db.frontier().unwrap();
    let mut batches = dependent_batches();
    let mut denied_tail = WriteBatch::new(S);
    denied_tail.set_vertex_property(VId(9), SECRET, Some(number(99)));
    batches.push(denied_tail);
    assert_eq!(
        write_ordered_authorized(&mut db, &ordered_grant(), batches),
        Err(WriteTxnError::Authorization(Denial::ScopeDenied))
    );
    assert_eq!(db.frontier().unwrap(), initial);
    for vid in [VId(1), VId(2), VId(3)] {
        assert!(vertex(&db, vid).is_none());
    }
    for eid in [EId(10), EId(20), EId(30), EId(99)] {
        assert!(db.edge_at(eid, initial).unwrap().is_none());
    }
    assert_eq!(vertex(&db, VId(9)).unwrap().props, vec![(SECRET, number(99))]);
    // The failed workspace reserves no identity and fences nothing.
    let seq = write_ordered_authorized(&mut db, &ordered_grant(), dependent_batches()).unwrap();
    assert_eq!(seq.0, initial.0 + 1);
    assert_graph(&db, seq);
}

#[test]
fn batch_coordinate_cannot_authorize_a_hidden_edge_relation() {
    let mut db = open();
    let mut first = WriteBatch::new(T);
    first.create_vertex(VId(1), vec![L], vec![]);
    first.create_vertex(VId(2), vec![L], vec![]);
    first.add_edge(EId(10), VId(1), VId(2), vec![(P, number(1))]);
    seed(&mut db, first);
    let initial = db.frontier().unwrap();
    let scoped = Grant { relations: Some(vec![R, S]), ..ordered_grant() };
    let mut first = WriteBatch::new(R);
    first.create_vertex(VId(3), vec![L], vec![]);
    let mut second = WriteBatch::new(S);
    second.set_edge_property(EId(10), P, Some(number(2)));
    assert_eq!(
        write_ordered_authorized(&mut db, &scoped, vec![first, second]),
        Err(WriteTxnError::Authorization(Denial::ScopeDenied))
    );
    assert_eq!(db.frontier().unwrap(), initial);
    assert!(vertex(&db, VId(3)).is_none());
    assert_eq!(edge(&db, EId(10)).unwrap().props, vec![(P, number(1))]);
}

#[test]
fn node_allowance_is_shared_across_relation_boundaries() {
    let mut db = open();
    let initial = db.frontier().unwrap();
    let batches = || {
        let mut first = WriteBatch::new(R);
        first.create_vertex(VId(1), vec![L], vec![]);
        let mut second = WriteBatch::new(S);
        second.create_vertex(VId(2), vec![L], vec![]);
        vec![first, second]
    };
    // One creation pays initial admission and its actual after-image. Each batch
    // alone fits two nodes; together they need four.
    let scoped = ordered_grant().limited(LimitDimension::Nodes, 2);
    assert_eq!(
        write_ordered_authorized(&mut db, &scoped, batches()),
        Err(WriteTxnError::Authorization(Denial::LimitExceeded(LimitDimension::Nodes)))
    );
    assert_eq!(db.frontier().unwrap(), initial);
    assert!(vertex(&db, VId(1)).is_none());
    assert!(vertex(&db, VId(2)).is_none());
    let scoped = ordered_grant().limited(LimitDimension::Nodes, 4);
    let seq = write_ordered_authorized(&mut db, &scoped, batches()).unwrap();
    assert_eq!(seq.0, initial.0 + 1);
    assert!(vertex(&db, VId(1)).is_some());
    assert!(vertex(&db, VId(2)).is_some());
}

fn budget_attempt(batches: Vec<WriteBatch>, work: u64, single: bool) -> Result<CommitSeq, WriteTxnError> {
    let mut db = open();
    let initial = db.frontier().unwrap();
    let scoped = ordered_grant().limited(LimitDimension::Work, work);
    let result = if single {
        assert_eq!(batches.len(), 1);
        write_authorized(&mut db, &scoped, batches.into_iter().next().unwrap())
    } else {
        write_ordered_authorized(&mut db, &scoped, batches)
    };
    if result.is_err() {
        assert_eq!(db.frontier().unwrap(), initial);
        assert!(vertex(&db, VId(1)).is_none());
        assert!(vertex(&db, VId(2)).is_none());
    }
    result
}

fn minimum_work(batches: &[WriteBatch], single: bool) -> u64 {
    let copies = || batches.iter().map(WriteBatch::copy).collect::<Vec<_>>();
    let (mut low, mut high) = (0, 4096);
    budget_attempt(copies(), high, single).unwrap();
    while high - low > 1 {
        let middle = low + (high - low) / 2;
        match budget_attempt(copies(), middle, single) {
            Ok(_) => high = middle,
            Err(WriteTxnError::Authorization(Denial::LimitExceeded(LimitDimension::Work))) => {
                low = middle;
            }
            other => panic!("unexpected budget outcome: {other:?}"),
        }
    }
    high
}

#[test]
fn splitting_batches_cannot_refresh_work_or_change_single_batch_charges() {
    let mut first = WriteBatch::new(R);
    first.create_vertex(VId(1), vec![L], vec![(P, number(1))]);
    let mut second = WriteBatch::new(R);
    second.create_vertex(VId(2), vec![L], vec![]);
    let split = vec![first.copy(), second.copy()];
    let mut grouped = first.copy();
    grouped.create_vertex(VId(2), vec![L], vec![]);
    let grouped = vec![grouped];
    let single = minimum_work(&grouped, true);
    assert_eq!(minimum_work(&grouped, false), single);
    assert_eq!(minimum_work(&split, false), single);
    let first_only = minimum_work(&[first], false);
    let second_only = minimum_work(&[second], false);
    assert!(single > first_only.max(second_only));
    assert_eq!(
        budget_attempt(split, first_only.max(second_only), false),
        Err(WriteTxnError::Authorization(Denial::LimitExceeded(LimitDimension::Work)))
    );
}

#[test]
fn empty_groups_and_read_only_tokens_never_create_a_workspace_or_publish() {
    let mut db = open();
    let initial = db.frontier().unwrap();
    let mut malformed = dependent_batches();
    malformed.push(WriteBatch::new(T));
    for batches in [Vec::new(), vec![WriteBatch::new(R)], malformed] {
        assert_eq!(
            write_ordered_authorized(&mut db, &ordered_grant(), batches),
            Err(WriteTxnError::Write(WriteError::EmptyBatch))
        );
        assert_eq!(db.frontier().unwrap(), initial);
        assert!(vertex(&db, VId(1)).is_none());
    }
    let read = Grant { rights: Rights::Read, ..ordered_grant() };
    assert_eq!(
        write_ordered_authorized(&mut db, &read, Vec::new()),
        Err(WriteTxnError::Authorization(Denial::PermissionDenied))
    );
    assert_eq!(db.frontier().unwrap(), initial);
}

#[test]
fn a_capability_of_another_namespace_is_refused_first() {
    let mut db = open();
    let mut session = Session::new(ordered_grant().host(), Metering::Signed);
    let done = db.write_ordered_authorized(
        8,
        &Err(Denial::Expired),
        &vec![],
        &mut durable(),
        &mut session,
    );
    assert!(matches!(done, Err(WriteTxnError::Authorization(Denial::WrongAuthority))));
    assert_eq!(session.host().budget.borrow().seen, 0);
}

fn target_grant() -> Grant {
    Grant {
        labels: Some(vec![L]),
        relations: Some(vec![R]),
        nodes: 4096,
        work: 4096,
        rows: 0,
        ..Grant::new(Rights::Write)
    }
}

#[derive(Clone, Copy, Debug)]
enum HiddenTarget {
    Vertex,
    Relation,
    Source,
    Destination,
    SelfLoop,
}

fn target_fixture(hidden: Option<HiddenTarget>) -> Database {
    let mut db = open();
    let mut first = WriteBatch::new(R);
    first.create_vertex(VId(1), vec![L], vec![]);
    first.create_vertex(VId(2), vec![L], vec![]);
    if hidden.is_some() {
        first.create_vertex(VId(9), vec![HIDDEN], vec![(P, number(9))]);
    }
    let endpoints = match hidden {
        Some(HiddenTarget::Source) => Some((VId(9), VId(1))),
        Some(HiddenTarget::Destination) => Some((VId(1), VId(9))),
        Some(HiddenTarget::SelfLoop) => Some((VId(9), VId(9))),
        _ => None,
    };
    if let Some((src, dst)) = endpoints {
        first.add_edge(EId(9), src, dst, vec![(P, number(9))]);
    }
    seed(&mut db, first);
    if matches!(hidden, Some(HiddenTarget::Relation)) {
        let mut secret = WriteBatch::new(S);
        secret.add_edge(EId(9), VId(1), VId(2), vec![(P, number(9))]);
        seed(&mut db, secret);
    }
    db
}

#[derive(Clone, Copy, Debug)]
enum Mutation {
    VertexSet,
    VertexCas,
    VertexLabel,
    EdgeSet,
    EdgeCas,
    EdgeDelete,
    EdgeDeleteIfPresent,
    CreateTo,
    EnsureTo,
    CreateFrom,
}

fn request(mutation: Mutation) -> WriteBatch {
    let mut batch = WriteBatch::new(R);
    batch.create_vertex(VId(50), vec![L], vec![]);
    let policy = WriteMismatchPolicy::AbortWrite;
    match mutation {
        Mutation::VertexSet => batch.set_vertex_property(VId(9), P, Some(number(7))),
        Mutation::VertexCas => batch.compare_and_set(
            ElementId::Vertex(VId(9)),
            P,
            Some(number(9)),
            number(7),
            policy,
        ),
        Mutation::VertexLabel => batch.set_vertex_label(VId(9), L, true),
        Mutation::EdgeSet => batch.set_edge_property(EId(9), P, Some(number(7))),
        Mutation::EdgeCas => {
            batch.compare_and_set(ElementId::Edge(EId(9)), P, Some(number(9)), number(7), policy)
        }
        Mutation::EdgeDelete => batch.delete_edge(EId(9)),
        Mutation::EdgeDeleteIfPresent => batch.delete_edge_if_present(EId(9)),
        Mutation::CreateTo => batch.add_edge(EId(50), VId(1), VId(9), vec![]),
        Mutation::EnsureTo => batch.ensure_edge_by_triple(EId(50), VId(1), VId(9), vec![]),
        Mutation::CreateFrom => batch.add_edge(EId(50), VId(9), VId(1), vec![]),
    };
    batch
}

/// True iff the request reached the common scope refusal, rather than exhausting the
/// selected allowance.
fn reaches_denial(
    db: &mut Database,
    grant: &Grant,
    mutation: Mutation,
    meter: LimitDimension,
    limit: u64,
) -> bool {
    let frontier = db.frontier().unwrap();
    let result = write_authorized(db, &grant.limited(meter, limit), request(mutation));
    assert_eq!(db.frontier().unwrap(), frontier, "{mutation:?} {meter:?}={limit}");
    assert!(vertex(db, VId(50)).is_none());
    assert!(edge(db, EId(50)).is_none());
    match result {
        Err(WriteTxnError::Authorization(Denial::ScopeDenied)) => true,
        Err(WriteTxnError::Authorization(Denial::LimitExceeded(spent))) if spent == meter => false,
        other => panic!("{mutation:?} {meter:?}={limit}: {other:?}"),
    }
}

fn threshold(db: &mut Database, grant: &Grant, mutation: Mutation, meter: LimitDimension) -> u64 {
    let (mut low, mut high) = (0, 4096);
    assert!(reaches_denial(db, grant, mutation, meter, high));
    assert!(!reaches_denial(db, grant, mutation, meter, low));
    while high - low > 1 {
        let middle = low + (high - low) / 2;
        if reaches_denial(db, grant, mutation, meter, middle) {
            high = middle;
        } else {
            low = middle;
        }
    }
    // Witness both sides of the discovered boundary.
    assert!(reaches_denial(db, grant, mutation, meter, high));
    assert!(!reaches_denial(db, grant, mutation, meter, high - 1));
    high
}

#[test]
fn hidden_vertices_and_endpoints_share_absent_target_refusal_thresholds() {
    let mut absent = target_fixture(None);
    let mut hidden = target_fixture(Some(HiddenTarget::Vertex));
    for mutation in [
        Mutation::VertexSet,
        Mutation::VertexCas,
        Mutation::VertexLabel,
        Mutation::CreateTo,
        Mutation::EnsureTo,
        Mutation::CreateFrom,
    ] {
        for meter in [LimitDimension::Work, LimitDimension::Nodes] {
            assert_eq!(
                threshold(&mut absent, &target_grant(), mutation, meter),
                threshold(&mut hidden, &target_grant(), mutation, meter),
                "hidden vertex: {mutation:?}, {meter:?}"
            );
        }
    }
    assert_eq!(vertex(&hidden, VId(9)).unwrap().props, vec![(P, number(9))]);
}

#[test]
fn hidden_edge_relations_and_endpoints_share_absent_target_refusal_thresholds() {
    let mut absent = target_fixture(None);
    for target in [
        HiddenTarget::Relation,
        HiddenTarget::Source,
        HiddenTarget::Destination,
        HiddenTarget::SelfLoop,
    ] {
        let mut hidden = target_fixture(Some(target));
        for mutation in [
            Mutation::EdgeSet,
            Mutation::EdgeCas,
            Mutation::EdgeDelete,
            Mutation::EdgeDeleteIfPresent,
        ] {
            for meter in [LimitDimension::Work, LimitDimension::Nodes] {
                assert_eq!(
                    threshold(&mut absent, &target_grant(), mutation, meter),
                    threshold(&mut hidden, &target_grant(), mutation, meter),
                    "{target:?}: {mutation:?}, {meter:?}"
                );
            }
        }
        assert_eq!(edge(&hidden, EId(9)).unwrap().props, vec![(P, number(9))]);
    }
}

#[test]
fn admitted_updates_keep_original_hidden_fields_and_refuse_after_image_scope_escape() {
    let mut db = open();
    let mut first = WriteBatch::new(R);
    first.create_vertex(
        VId(1),
        vec![L, HIDDEN],
        vec![(P, number(1)), (SECRET, number(99))],
    );
    seed(&mut db, first);
    let grant = Grant { properties: Some(vec![P]), ..target_grant() };
    let mut update = WriteBatch::new(R);
    update.set_vertex_property(VId(1), P, Some(number(7)));
    let frontier = write_authorized(&mut db, &grant, update).unwrap();
    let before = vertex(&db, VId(1)).unwrap();
    assert_eq!(before.labels, vec![L, HIDDEN]);
    assert_eq!(before.props, vec![(P, number(7)), (SECRET, number(99))]);
    let mut escape = WriteBatch::new(R);
    escape.create_vertex(VId(50), vec![L], vec![]);
    escape.set_vertex_label(VId(1), L, false);
    assert_eq!(
        write_authorized(&mut db, &grant, escape),
        Err(WriteTxnError::Authorization(Denial::ScopeDenied))
    );
    assert_eq!(db.frontier().unwrap(), frontier);
    assert!(vertex(&db, VId(50)).is_none());
    let after = vertex(&db, VId(1)).unwrap();
    assert_eq!(after.labels, before.labels);
    assert_eq!(after.props, before.props);
}

fn delete_grant() -> Grant {
    Grant::new(Rights::ReadWrite)
}

fn two_edges(db: &mut Database, parallel: bool) {
    let mut batch = WriteBatch::new(R);
    batch.create_vertex(VId(1), vec![L], vec![(P, number(10))]);
    batch.create_vertex(VId(2), vec![L], vec![(P, number(20))]);
    batch.add_edge(EId(11), VId(1), VId(2), vec![(P, number(1))]);
    if parallel {
        batch.add_edge(EId(12), VId(1), VId(2), vec![(P, number(2))]);
    }
    seed(db, batch);
}

fn ids(raw: impl IntoIterator<Item = u128>) -> IdSet {
    let mut set = IdSet::new();
    for id in raw {
        set.insert(id);
    }
    set
}

/// MATCH (a:Visible)-[e]->(b:Visible), and delete some of it.
fn deletion(
    relation: RelationId,
    source: bool,
    edge: bool,
    destination: bool,
    filter: Option<i64>,
) -> impl FnMut(usize, &View) -> Result<StepDraft, Fault> {
    move |_, view| {
        let matched: Vec<_> = view
            .between(relation, L)
            .into_iter()
            .filter(|found| filter.map_or(true, |p| value(&found.1.props, P) == Some(p)))
            .collect();
        let mut vertices = Vec::new();
        if source {
            vertices.extend(matched.iter().map(|found| found.0.vid.0));
        }
        if destination {
            vertices.extend(matched.iter().map(|found| found.2.vid.0));
        }
        let edges = if edge { matched.iter().map(|found| found.1.entry.eid.0).collect() } else { vec![] };
        Ok(StepDraft::Delete {
            proposal: DeleteProposal {
                relation: R,
                stats: stats(view, matched.len()),
                vertices: ids(vertices),
                edges: ids(edges),
            },
        })
    }
}

/// MATCH (a:Visible) WHERE a.p = wanted DELETE a.
fn vertex_deletion(wanted: i64) -> impl FnMut(usize, &View) -> Result<StepDraft, Fault> {
    move |_, view| {
        let matched: Vec<u128> = view
            .labelled(L)
            .into_iter()
            .filter(|row| value(&row.props, P) == Some(wanted))
            .map(|row| row.vid.0)
            .collect();
        Ok(StepDraft::Delete {
            proposal: DeleteProposal {
                relation: R,
                stats: stats(view, matched.len()),
                vertices: ids(matched),
                edges: IdSet::new(),
            },
        })
    }
}

fn mixed() -> impl FnMut(usize, &View) -> Result<StepDraft, Fault> {
    deletion(R, true, true, true, None)
}

#[test]
fn mixed_delete_reorders_edges_deduplicates_receipts_and_reopens() {
    let mut db = open();
    two_edges(&mut db, true);
    let frontier = db.frontier().unwrap();
    let (receipt, completion, counted) = execute(&mut db, &delete_grant(), Kind::Delete, true, mixed()).unwrap();
    assert_eq!((counted.target_vertices, counted.target_edges), (2, 2));
    assert_eq!(counted.usage.snapshot_records, 6);
    assert_eq!(targets(&receipt), (vec![VId(1), VId(2)], vec![EId(11), EId(12)]));
    // Four source records of the MATCH plus the two incidence witnesses.
    match receipt {
        StepReceipt::Deleted { stats, .. } => {
            assert_eq!(stats.result_rows, 2);
            assert_eq!(stats.snapshot_records, 6);
        }
        other => panic!("not a deletion: {other:?}"),
    }
    let seq = db.frontier().unwrap();
    assert_eq!(seq.0, frontier.0 + 1);
    assert_eq!(completion, EmbeddedTxnCompletion::WriteCommitted { commit_seq: seq });
    assert_eq!(counts(&db), (0, 0));
}

#[test]
fn scoped_edge_deletion_checks_actual_relation_and_preserves_endpoints() {
    let mut db = open();
    two_edges(&mut db, true);
    let mut other = WriteBatch::new(OTHER);
    other.add_edge(EId(21), VId(1), VId(2), vec![(SECRET, number(99))]);
    seed(&mut db, other);
    let frontier = db.frontier().unwrap();
    let grant = Grant { labels: Some(vec![L]), relations: Some(vec![OTHER]), ..delete_grant() };
    // The default coordinate is not authorized; the actual edge's relation is.
    let statement = deletion(OTHER, false, true, false, None);
    let (receipt, _, counted) = execute(&mut db, &grant, Kind::Delete, true, statement).unwrap();
    assert_eq!((counted.target_vertices, counted.target_edges), (0, 1));
    assert_eq!(targets(&receipt), (vec![], vec![EId(21)]));
    assert!(vertex(&db, VId(1)).is_some() && vertex(&db, VId(2)).is_some());
    assert!(edge(&db, EId(21)).is_none());
    assert!(edge(&db, EId(11)).is_some() && edge(&db, EId(12)).is_some());
    assert_eq!(db.frontier().unwrap().0, frontier.0 + 1);
}

#[test]
fn every_unselected_incidence_kind_refuses_without_implicit_cascade() {
    for mode in 0..6 {
        let mut db = open();
        two_edges(&mut db, false);
        if mode != 0 {
            let mut extra = WriteBatch::new(if mode == 4 { OTHER } else { R });
            if mode == 5 {
                extra.create_vertex(VId(3), vec![HIDDEN], vec![]);
            }
            let (source, destination) = match mode {
                2 => (VId(2), VId(1)), // incoming
                3 => (VId(1), VId(1)), // self-loop
                5 => (VId(1), VId(3)), // endpoint excluded by the MATCH
                _ => (VId(1), VId(2)), // parallel or cross-relation
            };
            extra.add_edge(EId(30), source, destination, vec![(P, number(2))]);
            seed(&mut db, extra);
        }
        let before = image(&db);
        let statement = deletion(R, true, true, false, Some(1));
        let result = execute(&mut db, &delete_grant(), Kind::Delete, true, statement);
        if mode == 0 {
            let (receipt, _, _) = result.unwrap();
            assert_eq!(targets(&receipt), (vec![VId(1)], vec![EId(11)]));
            assert!(vertex(&db, VId(1)).is_none());
            assert!(vertex(&db, VId(2)).is_some());
            assert_eq!(counts(&db).1, 0);
        } else {
            assert!(matches!(result, Err(Fault::IncidentRelationships)), "mode={mode}");
            assert_eq!(image(&db), before);
        }
    }
}

#[test]
fn deletion_scope_refusal_does_not_disclose_hidden_fields_or_incidence() {
    for hidden in [false, true] {
        let mut db = open();
        two_edges(&mut db, false);
        if hidden {
            let mut extra = WriteBatch::new(OTHER);
            extra.create_vertex(VId(3), vec![HIDDEN], vec![]);
            extra.add_edge(EId(30), VId(1), VId(3), vec![]);
            extra.set_edge_property(EId(11), SECRET, Some(number(99)));
            seed(&mut db, extra);
        }
        let before = image(&db);
        let vertex_grant =
            Grant { labels: Some(vec![L]), relations: Some(vec![R]), ..delete_grant() };
        // The visible selected edge would leave the source isolated only in one
        // fixture. Both refuse from the capability's scope instead.
        let statement = deletion(R, true, true, false, None);
        let fault = execute(&mut db, &vertex_grant, Kind::Delete, false, statement).unwrap_err();
        assert_eq!(authorization(fault), Denial::ScopeDenied);
        let edge_grant = Grant { properties: Some(vec![P]), ..delete_grant() };
        let statement = deletion(R, false, true, false, None);
        let fault = execute(&mut db, &edge_grant, Kind::Delete, false, statement).unwrap_err();
        assert_eq!(authorization(fault), Denial::ScopeDenied);
        assert_eq!(image(&db), before);
    }
}

#[test]
fn result_target_and_incidence_record_limits_all_precede_publication() {
    for rows in 0..=4 {
        let mut db = open();
        two_edges(&mut db, true);
        let before = image(&db);
        let limited = delete_grant().limited(LimitDimension::Rows, rows);
        let result = execute(&mut db, &limited, Kind::Delete, true, mixed());
        if rows < 4 {
            assert_eq!(
                authorization(result.unwrap_err()),
                Denial::LimitExceeded(LimitDimension::Rows)
            );
            assert_eq!(image(&db), before);
        } else {
            let (vertices, edges) = targets(&result.unwrap().0);
            assert_eq!(vertices.len() + edges.len(), 4);
        }
    }
    let mut db = open();
    two_edges(&mut db, true);
    let before = image(&db);
    let limited = QueryPolicy { max_snapshot_records: Some(5), max_result_rows: Some(100), ..policy() };
    let statement = deletion(R, true, true, true, None);
    let issued = identities();
    let fault =
        execute_under(&mut db, &delete_grant(), Kind::Delete, false, limited, &issued, statement)
            .0
            .unwrap_err();
    assert!(matches!(fault, Fault::Rows { .. }));
    assert_eq!(image(&db), before);
    let zero = delete_grant().limited(LimitDimension::Rows, 0);
    execute(&mut db, &zero, Kind::Delete, false, mixed()).unwrap();
    assert_eq!(counts(&db), (0, 0));
}

#[test]
fn readwrite_rights_are_required_even_for_empty_delete_and_empty_results_read_close() {
    let mut db = open();
    two_edges(&mut db, true);
    let before = image(&db);
    for rights in [Rights::Read, Rights::Write] {
        let grant = Grant { rights, work: 0, ..delete_grant() };
        let fault = execute(&mut db, &grant, Kind::Delete, false, vertex_deletion(999)).unwrap_err();
        assert_eq!(authorization(fault), Denial::PermissionDenied);
    }
    let zero = delete_grant().limited(LimitDimension::Rows, 0);
    let (receipt, completion, counted) =
        execute(&mut db, &zero, Kind::Delete, true, vertex_deletion(999)).unwrap();
    assert_eq!((counted.target_vertices, counted.target_edges), (0, 0));
    assert_eq!(targets(&receipt), (vec![], vec![]));
    assert!(matches!(completion, EmbeddedTxnCompletion::ReadClosed { .. }));
    assert_eq!(image(&db), before);
}

#[test]
fn plain_delete_uses_one_node_allowance_and_hidden_topology_does_not_change_it() {
    let grant = Grant { labels: Some(vec![L]), relations: Some(vec![R]), ..delete_grant() };
    let mut floors = Vec::new();
    for mode in 0..3 {
        floors.push(floor(128, |nodes| {
            let limited = grant.limited(LimitDimension::Nodes, nodes);
            let mut db = open();
            two_edges(&mut db, true);
            if mode == 2 {
                let mut extra = WriteBatch::new(OTHER);
                extra.create_vertex(VId(3), vec![HIDDEN], vec![]);
                extra.add_edge(EId(30), VId(1), VId(3), vec![]);
                seed(&mut db, extra);
            }
            let before = image(&db);
            let denial = if mode == 0 {
                let mut batch = WriteBatch::new(R);
                batch.delete_edge(EId(11));
                batch.delete_edge(EId(12));
                match write_authorized(&mut db, &limited, batch) {
                    Ok(_) => None,
                    Err(WriteTxnError::Authorization(denial)) => Some(denial),
                    other => panic!("native witness: {other:?}"),
                }
            } else {
                let statement = deletion(R, false, true, false, None);
                execute(&mut db, &limited, Kind::Delete, false, statement).err().map(authorization)
            };
            if let Some(denial) = denial {
                assert_eq!(denial, Denial::LimitExceeded(LimitDimension::Nodes));
                assert_eq!(image(&db), before);
            }
            denial.is_none()
        }));
    }
    assert_eq!(floors[1], floors[0] + 2, "MATCH source admissions were reset");
    assert_eq!(floors[2], floors[1], "hidden graph changed the node refusal threshold");
}

#[test]
fn expiry_during_collection_proof_or_native_completion_discards_every_delete() {
    let mut db = open();
    two_edges(&mut db, true);
    let (done, count) =
        execute_with(&mut db, &delete_grant(), Kind::Delete, true, &identities(), mixed());
    done.unwrap();
    assert!(count > 10);
    for cutoff in [1, count / 2, count - 1] {
        let mut db = open();
        two_edges(&mut db, true);
        let before = image(&db);
        let expiring = delete_grant().expiring(cutoff + 1);
        let fault = execute(&mut db, &expiring, Kind::Delete, true, mixed()).unwrap_err();
        assert_eq!(authorization(fault), Denial::Expired);
        assert_eq!(image(&db), before);
    }
}

#[test]
fn isolated_vertex_delete_preserves_unrelated_topology() {
    let mut db = open();
    let mut batch = WriteBatch::new(R);
    for (id, p) in [(1, 10), (2, 20), (3, 30)] {
        batch.create_vertex(VId(id), vec![L], vec![(P, number(p))]);
    }
    batch.add_edge(EId(11), VId(2), VId(3), vec![]);
    seed(&mut db, batch);
    let frontier = db.frontier().unwrap();
    let (receipt, _, counted) =
        execute(&mut db, &delete_grant(), Kind::Delete, true, vertex_deletion(10)).unwrap();
    assert_eq!((counted.target_vertices, counted.target_edges), (1, 0));
    assert_eq!(targets(&receipt), (vec![VId(1)], vec![]));
    assert!(vertex(&db, VId(1)).is_none());
    assert_eq!(vertex(&db, VId(2)).unwrap().props, vec![(P, number(20))]);
    assert_eq!(vertex(&db, VId(3)).unwrap().props, vec![(P, number(30))]);
    assert!(edge(&db, EId(11)).is_some());
    assert_eq!(db.frontier().unwrap().0, frontier.0 + 1);
}

fn mutation_grant() -> Grant {
    Grant {
        labels: Some(vec![L]),
        relations: Some(vec![R]),
        properties: Some(vec![P, Q]),
        ..Grant::new(Rights::ReadWrite)
    }
}

fn mutation_seed(db: &mut Database, hidden: bool) {
    let mut batch = WriteBatch::new(R);
    for (id, p, secret) in [(1, 10, 71), (2, 20, 72)] {
        let mut props = vec![(P, number(p))];
        let mut labels = vec![L];
        if hidden {
            props.push((SECRET, number(secret)));
            if id == 2 {
                labels.push(HIDDEN);
            }
        }
        batch.create_vertex(VId(id), labels, props);
    }
    for (id, secret) in [(11, 81), (12, 82)] {
        let mut props = vec![(P, number(2))];
        if hidden {
            props.push((SECRET, number(secret)));
        }
        batch.add_edge(EId(id), VId(1), VId(2), props);
    }
    if hidden {
        batch.create_vertex(VId(3), vec![HIDDEN], vec![(P, number(30))]);
        batch.add_edge(EId(13), VId(1), VId(3), vec![(P, number(9))]);
    }
    seed(db, batch);
    if hidden {
        let mut batch = WriteBatch::new(H);
        batch.add_edge(EId(21), VId(1), VId(2), vec![(P, number(8))]);
        seed(db, batch);
    }
}

/// MATCH (a)-[e:R]->(b) WHERE a.p = 10 SET a.p, a.q, e.p, each once.
fn update() -> impl FnMut(usize, &View) -> Result<StepDraft, Fault> {
    |_, view| {
        let mut intents = Vec::new();
        let mut relationships = Vec::new();
        for (a, e, b) in view.between(R, L) {
            if value(&a.props, P) != Some(10) {
                continue;
            }
            if intents.is_empty() {
                let next = if value(&a.props, SECRET).is_none() { 11 } else { 0 };
                intents.push(MutationIntent::Property {
                    vertex: a.vid,
                    key: P,
                    value: Some(number(next)),
                });
                intents.push(MutationIntent::Property {
                    vertex: a.vid,
                    key: Q,
                    value: value(&b.props, P).map(number),
                });
            }
            relationships.push(MutationIntent::EdgeProperty {
                edge: e.entry.eid,
                key: P,
                value: Some(number(value(&e.props, P).unwrap() + 5)),
            });
        }
        view.selected(relationships.len());
        intents.extend(relationships);
        Ok(StepDraft::Mutation { relation: R, intents })
    }
}

/// MATCH (a:Visible) WHERE a.p = wanted, with some intents on each.
fn on_vertices(
    wanted: i64,
    intents: impl Fn(VId) -> Vec<MutationIntent>,
) -> impl FnMut(usize, &View) -> Result<StepDraft, Fault> {
    move |_, view| {
        let intents = view
            .labelled(L)
            .into_iter()
            .filter(|row| value(&row.props, P) == Some(wanted))
            .flat_map(|row| intents(row.vid))
            .collect();
        Ok(StepDraft::Mutation { relation: R, intents })
    }
}

#[test]
fn masked_simultaneous_vertex_and_edge_updates_deduplicate_and_reopen() {
    let mut db = open();
    mutation_seed(&mut db, true);
    let frontier = db.frontier().unwrap();
    let shown = |db: &Database| {
        format!(
            "{:?}",
            (vertex(db, VId(2)), vertex(db, VId(3)), edge(db, EId(13)), edge(db, EId(21)))
        )
    };
    let preserved = shown(&db);
    let (receipt, completion, counted) =
        execute(&mut db, &mutation_grant(), Kind::Mutation, true, update()).unwrap();
    assert_eq!(counted.usage.result_rows, 2);
    assert_eq!((counted.target_vertices, counted.target_edges, counted.effects), (1, 2, 4));
    assert_eq!(targets(&receipt), (vec![VId(1)], vec![EId(11), EId(12)]));
    let seq = db.frontier().unwrap();
    assert_eq!(seq.0, frontier.0 + 1);
    assert_eq!(completion, EmbeddedTxnCompletion::WriteCommitted { commit_seq: seq });
    assert_eq!(
        vertex(&db, VId(1)).unwrap().props,
        vec![(P, number(11)), (SECRET, number(71)), (Q, number(20))]
    );
    for (id, secret) in [(11, 81), (12, 82)] {
        assert_eq!(
            edge(&db, EId(id)).unwrap().props,
            vec![(P, number(7)), (SECRET, number(secret))]
        );
    }
    assert_eq!(shown(&db), preserved);
}

#[test]
fn forbidden_field_noops_and_scope_escape_leave_no_published_prefix() {
    for hidden in [false, true] {
        for tail in 0..3 {
            let mut db = open();
            mutation_seed(&mut db, hidden);
            let before = image(&db);
            let statement = on_vertices(10, |vertex| {
                vec![
                    MutationIntent::Property { vertex, key: P, value: Some(number(11)) },
                    match tail {
                        0 => MutationIntent::Property { vertex, key: SECRET, value: None },
                        1 => MutationIntent::Property { vertex, key: SECRET, value: Some(number(0)) },
                        _ => MutationIntent::Label { vertex, label: L, present: false },
                    },
                ]
            });
            let fault =
                execute(&mut db, &mutation_grant(), Kind::Mutation, false, statement).unwrap_err();
            assert_eq!(authorization(fault), Denial::ScopeDenied);
            assert_eq!(image(&db), before);
        }
    }
}

#[test]
fn receipt_quota_counts_distinct_targets_and_refuses_before_publication() {
    for rows in [0, 1, 2, 3] {
        let mut db = open();
        mutation_seed(&mut db, true);
        let before = image(&db);
        let frontier = db.frontier().unwrap();
        let limited = mutation_grant().limited(LimitDimension::Rows, rows);
        let result = execute(&mut db, &limited, Kind::Mutation, true, update());
        if rows < 3 {
            assert_eq!(
                authorization(result.unwrap_err()),
                Denial::LimitExceeded(LimitDimension::Rows)
            );
            assert_eq!(image(&db), before);
        } else {
            let (vertices, edges) = targets(&result.unwrap().0);
            assert_eq!(vertices.len() + edges.len(), 3);
            assert_eq!(db.frontier().unwrap().0, frontier.0 + 1);
        }
    }
    let mut db = open();
    mutation_seed(&mut db, true);
    let zero = mutation_grant().limited(LimitDimension::Rows, 0);
    execute(&mut db, &zero, Kind::Mutation, false, update()).unwrap();
}

#[test]
fn rights_precede_source_access_and_empty_matches_close_without_a_commit() {
    let mut db = open();
    mutation_seed(&mut db, true);
    let before = image(&db);
    let statement = || {
        on_vertices(999, |vertex| {
            vec![MutationIntent::Property { vertex, key: P, value: Some(number(1)) }]
        })
    };
    for rights in [Rights::Read, Rights::Write] {
        let grant = Grant { rights, work: 0, ..mutation_grant() };
        let fault = execute(&mut db, &grant, Kind::Mutation, false, statement()).unwrap_err();
        assert_eq!(authorization(fault), Denial::PermissionDenied);
    }
    let zero = mutation_grant().limited(LimitDimension::Rows, 0);
    let (receipt, completion, counted) =
        execute(&mut db, &zero, Kind::Mutation, true, statement()).unwrap();
    assert_eq!(counted.effects, 0);
    assert_eq!(targets(&receipt), (vec![], vec![]));
    assert!(matches!(completion, EmbeddedTxnCompletion::ReadClosed { .. }));
    assert_eq!(image(&db), before);
}

#[test]
fn detach_delete_cannot_probe_hidden_incidence_but_unrestricted_cascades_are_atomic() {
    for hidden in [false, true] {
        let mut db = open();
        mutation_seed(&mut db, hidden);
        let before = image(&db);
        let frontier = db.frontier().unwrap();
        let statement = || on_vertices(10, |vertex| vec![MutationIntent::DetachDelete { vertex }]);
        let fault =
            execute(&mut db, &mutation_grant(), Kind::Mutation, false, statement()).unwrap_err();
        assert_eq!(authorization(fault), Denial::ScopeDenied);
        assert_eq!(image(&db), before);
        let full = Grant::new(Rights::ReadWrite);
        let (receipt, _, counted) = execute(&mut db, &full, Kind::Mutation, true, statement()).unwrap();
        assert_eq!(counted.effects, 1);
        assert_eq!(targets(&receipt).0, vec![VId(1)]);
        assert!(targets(&receipt).1.is_empty(), "cascade edges are not explicit targets");
        assert!(vertex(&db, VId(1)).is_none());
        assert_eq!(counts(&db).1, 0);
        assert_eq!(db.frontier().unwrap().0, frontier.0 + 1);
    }
}

#[test]
fn expiry_in_selection_staging_or_final_admission_never_publishes_a_prefix() {
    let mut db = open();
    mutation_seed(&mut db, true);
    let (done, count) =
        execute_with(&mut db, &mutation_grant(), Kind::Mutation, true, &identities(), update());
    done.unwrap();
    assert!(count > 10);
    for cutoff in [1, count / 2, count - 1] {
        let mut db = open();
        mutation_seed(&mut db, true);
        let before = image(&db);
        let expiring = mutation_grant().expiring(cutoff + 1);
        let fault = execute(&mut db, &expiring, Kind::Mutation, true, update()).unwrap_err();
        assert_eq!(authorization(fault), Denial::Expired);
        assert_eq!(image(&db), before);
    }
}

#[test]
fn selection_and_mutation_share_the_native_node_allowance() {
    let mut floors = Vec::new();
    for matched in [false, true] {
        floors.push(floor(128, |nodes| {
            let limited = mutation_grant().limited(LimitDimension::Nodes, nodes);
            let mut db = open();
            mutation_seed(&mut db, false);
            let before = image(&db);
            let denial = if matched {
                execute(&mut db, &limited, Kind::Mutation, false, update()).err().map(authorization)
            } else {
                // Independent native witness for the four canonical effects.
                let mut batch = WriteBatch::new(R);
                batch.set_vertex_property(VId(1), P, Some(number(11)));
                batch.set_vertex_property(VId(1), Q, Some(number(20)));
                batch.set_edge_property(EId(11), P, Some(number(7)));
                batch.set_edge_property(EId(12), P, Some(number(7)));
                match write_authorized(&mut db, &limited, batch) {
                    Ok(_) => None,
                    Err(WriteTxnError::Authorization(denial)) => Some(denial),
                    other => panic!("native witness failed: {other:?}"),
                }
            };
            if let Some(denial) = denial {
                assert_eq!(denial, Denial::LimitExceeded(LimitDimension::Nodes));
                assert_eq!(image(&db), before);
            }
            denial.is_none()
        }));
    }
    assert_eq!(floors[1], floors[0] + 2, "MATCH must add the two visible source admissions");
}

#[test]
fn hidden_fields_topology_and_relations_do_not_change_signed_refusal_thresholds() {
    for dimension in [LimitDimension::Work, LimitDimension::Nodes] {
        let mut floors = Vec::new();
        for hidden in [false, true] {
            floors.push(floor(8192, |limit| {
                let limited = mutation_grant().limited(dimension, limit);
                let mut db = open();
                mutation_seed(&mut db, hidden);
                let before = image(&db);
                match execute(&mut db, &limited, Kind::Mutation, false, update()) {
                    Ok(_) => true,
                    Err(fault) => {
                        assert_eq!(authorization(fault), Denial::LimitExceeded(dimension));
                        assert_eq!(image(&db), before);
                        false
                    }
                }
            }));
        }
        assert_eq!(floors[0], floors[1], "hidden data changed {dimension:?} refusal threshold");
    }
}

fn insert_grant() -> Grant {
    Grant {
        labels: Some(vec![L]),
        relations: Some(vec![R, S]),
        properties: Some(vec![P]),
        ..Grant::new(Rights::Write)
    }
}

fn read_write_grant() -> Grant {
    Grant { rights: Rights::ReadWrite, ..insert_grant() }
}

const CREATE: Kind = Kind::Insert { selects: false };
const MATCH_INSERT: Kind = Kind::Insert { selects: true };

fn new_vertex(view: &View, label: LabelId, properties: Vec<(PropertyKeyId, CanonicalScalar)>) -> (End, Draft) {
    let position = view.issue(IdentityKind::Vertex);
    (End::New(position), Draft::Vertex { labels: vec![label], properties })
}

fn new_edge(
    view: &View,
    relation: RelationId,
    source: End,
    destination: End,
    properties: Vec<(PropertyKeyId, CanonicalScalar)>,
) -> Draft {
    view.issue(IdentityKind::Edge);
    Draft::Edge { relation, source, destination, properties }
}

/// Two vertices and some edges between them.
fn pair_insert(
    edges: Vec<(usize, RelationId, usize, Vec<(PropertyKeyId, CanonicalScalar)>)>,
    props: Vec<(PropertyKeyId, CanonicalScalar)>,
) -> impl FnMut(usize, &View) -> Result<StepDraft, Fault> {
    move |_, view| {
        let (a, first) = new_vertex(view, L, props.clone());
        let (b, second) = new_vertex(view, L, vec![]);
        let mut drafts = vec![first, second];
        let ends = [a, b];
        for (src, relation, dst, props) in &edges {
            drafts.push(new_edge(view, *relation, ends[*src], ends[*dst], props.clone()));
        }
        Ok(StepDraft::Insert { relation: R, drafts })
    }
}

#[test]
fn engine_issued_multi_relation_creation_is_atomic_and_reopens() {
    let mut db = open();
    let mut first = WriteBatch::new(H);
    first.create_vertex(VId(900), vec![HIDDEN], vec![(SECRET, number(99))]);
    first.create_vertex(VId(901), vec![HIDDEN], vec![]);
    first.add_edge(EId(800), VId(900), VId(901), vec![]);
    seed(&mut db, first);
    let mut retire = WriteBatch::new(H);
    retire.delete_vertex(VId(901));
    seed(&mut db, retire);
    let frontier = db.frontier().unwrap();
    let statement = pair_insert(
        vec![(0, R, 1, vec![]), (1, S, 0, vec![(P, number(7))]), (0, S, 0, vec![])],
        vec![(P, number(42))],
    );
    let (receipt, completion, counted) = execute(&mut db, &insert_grant(), CREATE, true, statement).unwrap();
    assert_eq!((counted.created_vertices, counted.created_edges), (2, 3));
    assert_eq!(counted.usage.snapshot_records, 0);
    let (vertices, edges) = targets(&receipt);
    assert_eq!(vertices.len(), 2);
    assert_eq!(edges.len(), 3);
    assert!(vertices.iter().all(|id| id.0 > 901));
    assert!(edges.iter().all(|id| id.0 > 800));
    let seq = db.frontier().unwrap();
    assert_eq!(seq.0, frontier.0 + 1);
    assert_eq!(completion, EmbeddedTxnCompletion::WriteCommitted { commit_seq: seq });
    assert_eq!(vertex(&db, VId(900)).unwrap().props, vec![(SECRET, number(99))]);
    assert_eq!(vertex(&db, vertices[0]).unwrap().props, vec![(P, number(42))]);
    for (index, source, relation, destination) in [
        (0, vertices[0], R, vertices[1]),
        (1, vertices[1], S, vertices[0]),
        (2, vertices[0], S, vertices[0]),
    ] {
        let entry = edge(&db, edges[index]).unwrap().entry;
        assert_eq!((entry.src, entry.relation, entry.dst), (source, relation, destination));
    }
}

#[test]
fn forbidden_creation_tail_aborts_every_relation_and_retries_without_reusing_ids() {
    for tail in [(1, H, 0, vec![]), (1, S, 0, vec![(SECRET, number(9))])] {
        let mut db = open();
        let frontier = db.frontier().unwrap();
        let issued = identities();
        let bad = pair_insert(vec![(0, R, 1, vec![]), tail], vec![]);
        let fault =
            execute_with(&mut db, &insert_grant(), CREATE, true, &issued, bad).0.unwrap_err();
        assert_eq!(authorization(fault), Denial::ScopeDenied);
        assert_eq!(db.frontier().unwrap(), frontier);
        assert_eq!(counts(&db), (0, 0));
        let good = pair_insert(vec![(0, S, 1, vec![])], vec![]);
        let (receipt, _, _) =
            execute_with(&mut db, &insert_grant(), CREATE, true, &issued, good).0.unwrap();
        let (vertices, edges) = targets(&receipt);
        assert!(vertices.iter().all(|id| id.0 > 2));
        assert!(edges.iter().all(|id| id.0 > 2));
        assert_eq!(db.frontier().unwrap().0, frontier.0 + 1);
    }
}

#[test]
fn returned_identity_rows_are_admitted_before_commit_but_stats_need_no_row_budget() {
    let statement = || pair_insert(vec![(0, R, 1, vec![])], vec![]);
    for rows in [0, 1, 2, 3] {
        let mut db = open();
        let frontier = db.frontier().unwrap();
        let limited = insert_grant().limited(LimitDimension::Rows, rows);
        let result = execute(&mut db, &limited, CREATE, true, statement());
        if rows < 3 {
            assert_eq!(
                authorization(result.unwrap_err()),
                Denial::LimitExceeded(LimitDimension::Rows)
            );
            assert_eq!(db.frontier().unwrap(), frontier);
            assert_eq!(counts(&db), (0, 0));
        } else {
            let (vertices, edges) = targets(&result.unwrap().0);
            assert_eq!(vertices.len() + edges.len(), 3);
            assert_eq!(db.frontier().unwrap().0, frontier.0 + 1);
        }
    }
    let mut db = open();
    let zero = insert_grant().limited(LimitDimension::Rows, 0);
    execute(&mut db, &zero, CREATE, false, statement()).unwrap();
    assert_eq!(counts(&db), (2, 1));
}

#[test]
fn permission_and_creation_limits_precede_identity_issuance() {
    for read_only in [true, false] {
        let mut db = open();
        let frontier = db.frontier().unwrap();
        let issued = identities();
        let mut grant = insert_grant();
        if read_only {
            grant.rights = Rights::Read;
        }
        let statement = |_: usize, view: &View| {
            if !read_only {
                return Err(Fault::CreationLimit { limit: 0, observed: 1 });
            }
            let (_, draft) = new_vertex(view, L, vec![]);
            Ok(StepDraft::Insert { relation: R, drafts: vec![draft] })
        };
        let fault = execute_with(&mut db, &grant, CREATE, false, &issued, statement).0.unwrap_err();
        if read_only {
            assert_eq!(authorization(fault), Denial::PermissionDenied);
        } else {
            assert_eq!(fault, Fault::CreationLimit { limit: 0, observed: 1 });
        }
        assert_eq!(db.frontier().unwrap(), frontier);
        let next = db
            .allocate_identity(&mut issued.borrow_mut(), IdentityKind::Vertex, &mut free())
            .unwrap();
        assert_eq!(next, ElementId::Vertex(VId(1)));
    }
}

#[test]
fn signed_work_and_node_limits_cover_collection_and_native_creation_together() {
    for dimension in [LimitDimension::Work, LimitDimension::Nodes] {
        let low = floor(1024, |limit| {
            let limited = insert_grant().limited(dimension, limit);
            let mut db = open();
            let frontier = db.frontier().unwrap();
            let statement = pair_insert(vec![(0, S, 1, vec![])], vec![(P, number(7))]);
            match execute(&mut db, &limited, CREATE, false, statement) {
                Ok(_) => {
                    assert_eq!(counts(&db), (2, 1));
                    true
                }
                Err(fault) => {
                    assert_eq!(authorization(fault), Denial::LimitExceeded(dimension));
                    assert_eq!(db.frontier().unwrap(), frontier);
                    assert_eq!(counts(&db), (0, 0));
                    false
                }
            }
        });
        // Not merely the three creations: every before and after admission uses
        // this same allowance.
        assert!(low > 3, "{dimension:?} threshold {low}");
    }
}

/// The same visible graph, with optional hidden rows, fields, relations and
/// incidence.
fn matched_fixture(hidden: bool) -> Database {
    let mut db = open();
    let mut first = WriteBatch::new(R);
    let mut properties = vec![(P, number(10))];
    if hidden {
        properties.push((SECRET, number(99)));
    }
    first.create_vertex(VId(1), vec![L], properties);
    first.create_vertex(VId(2), vec![L], vec![(P, number(20))]);
    first.add_edge(EId(11), VId(1), VId(2), vec![]);
    first.add_edge(EId(12), VId(1), VId(2), vec![]);
    if hidden {
        first.create_vertex(VId(30), vec![HIDDEN], vec![(P, number(999))]);
        first.add_edge(EId(31), VId(1), VId(30), vec![]);
    }
    seed(&mut db, first);
    if hidden {
        let mut other = WriteBatch::new(H);
        other.add_edge(EId(40), VId(1), VId(2), vec![]);
        seed(&mut db, other);
    }
    db
}

/// MATCH (a)-[:R]->(b) INSERT a copy of a between them, for each occurrence.
fn matched_insert() -> impl FnMut(usize, &View) -> Result<StepDraft, Fault> {
    |_, view| {
        let mut drafts = Vec::new();
        view.selected(view.between(R, L).len());
        for (a, _, b) in view.between(R, L) {
            let p = if value(&a.props, SECRET).is_none() { value(&a.props, P).unwrap() } else { 999 };
            let (copy, draft) = new_vertex(view, L, vec![(P, number(p))]);
            drafts.push(draft);
            drafts.push(new_edge(view, S, End::Known(a.vid), copy, vec![]));
            drafts.push(new_edge(view, R, copy, End::Known(b.vid), vec![]));
        }
        Ok(StepDraft::Insert { relation: R, drafts })
    }
}

#[test]
fn match_insert_uses_masked_properties_and_preserves_occurrence_multiplicity() {
    for hidden in [false, true] {
        let mut db = matched_fixture(hidden);
        let frontier = db.frontier().unwrap();
        let original = vertex(&db, VId(1)).unwrap().props;
        let (receipt, completion, counted) =
            execute(&mut db, &read_write_grant(), MATCH_INSERT, true, matched_insert()).unwrap();
        assert_eq!((counted.created_vertices, counted.created_edges), (2, 4));
        assert_eq!(counted.usage.result_rows, 2);
        let (vertices, edges) = targets(&receipt);
        assert_eq!((vertices.len(), edges.len()), (2, 4));
        let seq = db.frontier().unwrap();
        assert_eq!(seq.0, frontier.0 + 1);
        assert_eq!(completion, EmbeddedTxnCompletion::WriteCommitted { commit_seq: seq });
        assert_eq!(vertex(&db, VId(1)).unwrap().props, original);
        for (occurrence, copy) in vertices.iter().copied().enumerate() {
            assert_eq!(vertex(&db, copy).unwrap().props, vec![(P, number(10))]);
            let first = edge(&db, edges[2 * occurrence]).unwrap().entry;
            let second = edge(&db, edges[2 * occurrence + 1]).unwrap().entry;
            assert_eq!((first.src, first.relation, first.dst), (VId(1), S, copy));
            assert_eq!((second.src, second.relation, second.dst), (copy, R, VId(2)));
        }
    }
}

#[test]
fn empty_scoped_match_closes_without_publication_or_identity_reservations() {
    let mut db = matched_fixture(true);
    let issued = identities();
    let next = |db: &Database, kind| {
        match db.allocate_identity(&mut issued.borrow_mut(), kind, &mut free()).unwrap() {
            ElementId::Vertex(vid) => vid.0,
            ElementId::Edge(eid) => eid.0,
        }
    };
    let before_vertex = next(&db, IdentityKind::Vertex);
    let before_edge = next(&db, IdentityKind::Edge);
    let frontier = db.frontier().unwrap();
    let original = image(&db);
    let zero = read_write_grant().limited(LimitDimension::Rows, 0);
    let statement = |_: usize, view: &View| {
        let mut drafts = Vec::new();
        for row in view.labelled(HIDDEN) {
            let (copy, draft) = new_vertex(view, L, vec![]);
            drafts.push(draft);
            drafts.push(new_edge(view, S, End::Known(row.vid), copy, vec![]));
        }
        Ok(StepDraft::Insert { relation: R, drafts })
    };
    let (receipt, completion, counted) =
        execute_with(&mut db, &zero, MATCH_INSERT, true, &issued, statement).0.unwrap();
    assert_eq!((counted.created_vertices, counted.created_edges), (0, 0));
    assert_eq!(targets(&receipt), (vec![], vec![]));
    assert_eq!(
        completion,
        EmbeddedTxnCompletion::ReadClosed { snapshot_seq: frontier, validated_through: frontier }
    );
    assert_eq!(image(&db), original);
    assert_eq!(next(&db, IdentityKind::Vertex), before_vertex + 1);
    assert_eq!(next(&db, IdentityKind::Edge), before_edge + 1);
}

#[test]
fn write_only_authority_cannot_gain_selection_reads_even_for_an_empty_match() {
    let grant = insert_grant().limited(LimitDimension::Work, 0);
    for label in [L, HIDDEN] {
        let mut db = matched_fixture(true);
        let original = image(&db);
        let statement = |_: usize, view: &View| {
            let drafts =
                view.labelled(label).iter().map(|_| new_vertex(view, L, vec![]).1).collect();
            Ok(StepDraft::Insert { relation: R, drafts })
        };
        let fault = execute(&mut db, &grant, MATCH_INSERT, false, statement).unwrap_err();
        assert_eq!(authorization(fault), Denial::PermissionDenied);
        assert_eq!(image(&db), original);
    }
}

#[test]
fn hidden_data_changes_neither_match_insert_work_nor_node_refusal_thresholds() {
    for dimension in [LimitDimension::Work, LimitDimension::Nodes] {
        let mut floors = Vec::new();
        for hidden in [false, true] {
            floors.push(floor(4096, |limit| {
                let limited = read_write_grant().limited(dimension, limit);
                let mut db = matched_fixture(hidden);
                let original = image(&db);
                match execute(&mut db, &limited, MATCH_INSERT, false, matched_insert()) {
                    Ok(_) => true,
                    Err(fault) => {
                        assert_eq!(authorization(fault), Denial::LimitExceeded(dimension));
                        assert_eq!(image(&db), original);
                        false
                    }
                }
            }));
        }
        assert_eq!(floors[0], floors[1], "{dimension:?}: hidden data changed the threshold");
    }
}

#[test]
fn selection_and_write_share_one_node_allowance_not_two_independent_permits() {
    let mut floors = Vec::new();
    for matched in [false, true] {
        let low = floor(128, |nodes| {
            let limited = read_write_grant().limited(LimitDimension::Nodes, nodes);
            let mut db = matched_fixture(false);
            let denial = if matched {
                execute(&mut db, &limited, MATCH_INSERT, false, matched_insert())
                    .err()
                    .map(authorization)
            } else {
                // Independent native witness for exactly the effects selected above.
                let mut batches = Vec::new();
                for occurrence in 0..2_u128 {
                    let copy = VId(100 + occurrence);
                    let mut create = WriteBatch::new(R);
                    create.create_vertex(copy, vec![L], vec![(P, number(10))]);
                    let mut incoming = WriteBatch::new(S);
                    incoming.add_edge(EId(100 + 2 * occurrence), VId(1), copy, vec![]);
                    let mut outgoing = WriteBatch::new(R);
                    outgoing.add_edge(EId(101 + 2 * occurrence), copy, VId(2), vec![]);
                    batches.extend([create, incoming, outgoing]);
                }
                match write_ordered_authorized(&mut db, &limited, batches) {
                    Ok(_) => None,
                    Err(WriteTxnError::Authorization(denial)) => Some(denial),
                    other => panic!("native allowance witness: {other:?}"),
                }
            };
            if let Some(denial) = denial {
                assert_eq!(denial, Denial::LimitExceeded(LimitDimension::Nodes));
            }
            denial.is_none()
        });
        assert!(low > 2);
        floors.push(low);
    }
    // The source admits the two visible vertices once, in addition to all the same
    // native admissions.
    assert_eq!(floors[1], floors[0] + 2);
}

#[test]
fn expiry_during_match_collection_or_final_admission_never_publishes_a_prefix() {
    let mut db = matched_fixture(false);
    let (done, total) = execute_with(
        &mut db,
        &read_write_grant(),
        MATCH_INSERT,
        false,
        &identities(),
        matched_insert(),
    );
    done.unwrap();
    assert!(total > 3);
    for cutoff in [1, total / 2, total] {
        let mut db = matched_fixture(false);
        let before = image(&db);
        let expiring = read_write_grant().expiring(cutoff);
        let fault =
            execute(&mut db, &expiring, MATCH_INSERT, false, matched_insert()).unwrap_err();
        assert_eq!(authorization(fault), Denial::Expired);
        assert_eq!(image(&db), before, "cutoff={cutoff}");
    }
}

fn vertex_merge_grant() -> Grant {
    Grant {
        labels: Some(vec![L]),
        relations: Some(vec![R]),
        properties: Some(vec![P]),
        ..Grant::new(Rights::ReadWrite)
    }
}

/// MERGE (n:label {key: 7}).
fn vertex_merge(label: LabelId, key: PropertyKeyId) -> impl FnMut(usize, &View) -> Result<StepDraft, Fault> {
    move |_, view| {
        let matched: Vec<VId> = view
            .labelled(label)
            .into_iter()
            .filter(|row| value(&row.props, key) == Some(7))
            .map(|row| row.vid)
            .collect();
        view.selected(matched.len());
        Ok(StepDraft::VertexMerge { relation: R, target: merged(view, matched.first(), label, key) })
    }
}

/// The one match, or a vertex to create.
fn merged(view: &View, matched: Option<&VId>, label: LabelId, key: PropertyKeyId) -> MergeTarget {
    match matched {
        Some(vertex) => MergeTarget::Matched(*vertex),
        None => {
            view.issue(IdentityKind::Vertex);
            MergeTarget::Missing { labels: vec![label], properties: vec![(key, number(7))] }
        }
    }
}

fn merge_vertex(
    db: &mut Database,
    grant: &Grant,
    identities: &RefCell<IdentityState>,
    statement: impl FnMut(usize, &View) -> Result<StepDraft, Fault>,
) -> (Result<(VId, bool, EmbeddedTxnCompletion, StatementStats), Fault>, u64) {
    let mut session = Session::new(grant.host(), Metering::SignedQuery);
    let mut collector = Recorder::new(Matcher { statement });
    let done = db.execute_graph_vertex_merge_authorized(
        NAMESPACE,
        &grant.verified(),
        statement_under(0, policy()),
        &mut identities.borrow_mut(),
        &mut collector,
        &mut durable(),
        &mut session,
    );
    let seen = session.host().budget.borrow().seen;
    let done = done.map(|((stats, vertex, created), completion)| (vertex, created, completion, stats));
    (done, seen)
}

fn one_vertex(db: &mut Database, labels: Vec<LabelId>, id: u128) {
    let mut batch = WriteBatch::new(R);
    batch.create_vertex(VId(id), labels, vec![(P, number(7))]);
    seed(db, batch);
}

#[test]
fn scoped_merge_creates_once_matches_without_a_commit_and_reopens() {
    let mut db = open();
    one_vertex(&mut db, vec![HIDDEN], 100);
    let basis = db.frontier().unwrap();
    let issued = identities();
    let (first, created, completion, counted) =
        merge_vertex(&mut db, &vertex_merge_grant(), &issued, vertex_merge(L, P)).0.unwrap();
    assert!(created);
    assert_eq!(counted.created_vertices, 1);
    assert_eq!(counted.usage.result_rows, 0);
    assert_eq!(first, VId(101));
    let seq = db.frontier().unwrap();
    assert_eq!(seq.0, basis.0 + 1);
    assert_eq!(completion, EmbeddedTxnCompletion::WriteCommitted { commit_seq: seq });
    assert!(db.vertex_at(first, basis).unwrap().is_none());
    assert_eq!(vertex(&db, VId(100)).unwrap().labels, vec![HIDDEN]);
    let (second, created, completion, counted) =
        merge_vertex(&mut db, &vertex_merge_grant(), &issued, vertex_merge(L, P)).0.unwrap();
    assert!(!created);
    assert_eq!(counted.created_vertices, 0);
    assert_eq!(second, first);
    assert_eq!(
        completion,
        EmbeddedTxnCompletion::ReadClosed { snapshot_seq: seq, validated_through: seq }
    );
    assert_eq!(db.frontier().unwrap(), seq);
    // The match arm neither allocates nor publishes a no-op.
    let next = db
        .allocate_identity(&mut issued.borrow_mut(), IdentityKind::Vertex, &mut free())
        .unwrap();
    assert_eq!(next, ElementId::Vertex(VId(first.0 + 1)));
}

#[test]
fn readwrite_and_one_receipt_row_are_required_before_graph_access_or_allocation() {
    for rights in [Rights::Read, Rights::Write, Rights::ReadWrite] {
        let mut db = open();
        let basis = db.frontier().unwrap();
        let issued = identities();
        let mut grant = Grant { rights, ..vertex_merge_grant() };
        if rights == Rights::ReadWrite {
            grant.rows = 0;
        }
        let fault = merge_vertex(&mut db, &grant, &issued, vertex_merge(L, P)).0.unwrap_err();
        let expected = if rights == Rights::ReadWrite {
            Denial::LimitExceeded(LimitDimension::Rows)
        } else {
            Denial::PermissionDenied
        };
        assert_eq!(authorization(fault), expected);
        assert_eq!(db.frontier().unwrap(), basis);
        assert_eq!(counts(&db), (0, 0));
        let next = db
            .allocate_identity(&mut issued.borrow_mut(), IdentityKind::Vertex, &mut free())
            .unwrap();
        assert_eq!(next, ElementId::Vertex(VId(1)));
    }
}

#[test]
fn creation_limits_and_forbidden_fields_refuse_without_partial_effects() {
    for (label, key) in [(HIDDEN, P), (L, SECRET)] {
        let mut db = open();
        let basis = db.frontier().unwrap();
        let fault =
            merge_vertex(&mut db, &vertex_merge_grant(), &identities(), vertex_merge(label, key))
                .0
                .unwrap_err();
        assert_eq!(authorization(fault), Denial::ScopeDenied);
        assert_eq!(db.frontier().unwrap(), basis);
        assert_eq!(counts(&db), (0, 0));
    }
    let mut db = open();
    let basis = db.frontier().unwrap();
    let issued = identities();
    let refusing = |_: usize, _: &View| Err(Fault::CreationLimit { limit: 0, observed: 1 });
    let fault = merge_vertex(&mut db, &vertex_merge_grant(), &issued, refusing).0.unwrap_err();
    assert_eq!(fault, Fault::CreationLimit { limit: 0, observed: 1 });
    assert_eq!(db.frontier().unwrap(), basis);
    let next = db
        .allocate_identity(&mut issued.borrow_mut(), IdentityKind::Vertex, &mut free())
        .unwrap();
    assert_eq!(next, ElementId::Vertex(VId(1)));
}

#[test]
fn expiry_at_every_live_check_refuses_before_publication_and_releases_the_pin() {
    for existing in [false, true] {
        let mut baseline = open();
        if existing {
            one_vertex(&mut baseline, vec![L], 1);
        }
        let (done, checks) =
            merge_vertex(&mut baseline, &vertex_merge_grant(), &identities(), vertex_merge(L, P));
        done.unwrap();
        assert!(checks > 3);
        for expire_at in 1..=checks {
            let mut db = open();
            if existing {
                one_vertex(&mut db, vec![L], 1);
            }
            let before = image(&db);
            let expiring = vertex_merge_grant().expiring(expire_at);
            let result = merge_vertex(&mut db, &expiring, &identities(), vertex_merge(L, P)).0;
            assert!(result.is_err(), "expiry check {expire_at}/{checks}, matched={existing}");
            assert_eq!(image(&db), before);
        }
    }
}

fn edge_merge_grant() -> Grant {
    Grant {
        labels: Some(vec![L]),
        relations: Some(vec![R, S]),
        properties: Some(vec![P]),
        ..Grant::new(Rights::ReadWrite)
    }
}

fn edge_merge_seed(db: &mut Database, hidden: bool, matched: bool) {
    let mut batch = WriteBatch::new(R);
    for (id, p) in [(1, 10), (2, 20)] {
        let mut props = vec![(P, number(p))];
        if hidden {
            props.push((SECRET, number(99)));
        }
        batch.create_vertex(VId(id), vec![L], props);
    }
    for id in [11, 12] {
        batch.add_edge(EId(id), VId(1), VId(2), vec![]);
    }
    if hidden {
        for id in 3..8 {
            batch.create_vertex(VId(id), vec![HIDDEN], vec![]);
            batch.add_edge(EId(30 + id), VId(1), VId(id), vec![]);
        }
    }
    seed(db, batch);
    if matched {
        let mut batch = WriteBatch::new(S);
        let props = if hidden { vec![(SECRET, number(101))] } else { vec![] };
        batch.add_edge(EId(21), VId(1), VId(2), props);
        seed(db, batch);
    }
    if hidden {
        let mut batch = WriteBatch::new(H);
        for id in 50..55 {
            batch.add_edge(EId(id), VId(1), VId(2), vec![]);
        }
        seed(db, batch);
    }
}

struct Pairs<F> {
    rows: F,
}

impl<F: FnMut(&View) -> Vec<Vec<SelectedValue>>> ScopedSelector for Pairs<F> {
    fn select(
        &mut self,
        pattern: u64,
        _policy: QueryPolicy,
        source: &SelectionSource,
        scope: &Predicates,
        transaction: &WriteTxn,
        database: &Database,
    ) -> Chosen {
        assert_eq!(pattern, 3);
        let source = match source {
            SelectionSource::Committed => Some(SelectionSource::Committed),
            _ => panic!("a fresh workspace has nothing staged"),
        };
        let view = masked(&source, scope, true, transaction, database);
        let rows = (self.rows)(&view);
        let selection = Selection { stats: stats(&view, rows.len()), rows };
        let controls = view
            .callbacks
            .into_inner()
            .into_iter()
            .map(|callback| match callback {
                Callback::Control(control) => control,
                other => panic!("a selection issues nothing: {other:?}"),
            })
            .collect();
        Chosen { controls, outcome: Ok(selection) }
    }
}

fn definition(relation: RelationId, properties: Vec<(PropertyKeyId, CanonicalScalar)>) -> GraphEdgeMerge {
    GraphEdgeMerge {
        pattern: 3,
        reads_edges: true,
        relation,
        width: 2,
        source_column: 0,
        destination_column: 1,
        properties,
    }
}

fn edge_policy() -> GraphEdgeMergePolicy {
    GraphEdgeMergePolicy { query: policy(), max_created_edges: 10 }
}

/// MATCH (a)-[:R]->(b).
fn related(view: &View) -> Vec<Vec<SelectedValue>> {
    view.between(R, L)
        .into_iter()
        .map(|(a, _, b)| vec![SelectedValue::Vertex(a.vid), SelectedValue::Vertex(b.vid)])
        .collect()
}

/// MATCH (a:label) WHERE a.p = wanted, as a pair with itself.
fn loops(label: LabelId, wanted: Option<i64>) -> impl FnMut(&View) -> Vec<Vec<SelectedValue>> {
    move |view| {
        view.labelled(label)
            .into_iter()
            .filter(|row| wanted.is_none() || value(&row.props, P) == wanted)
            .map(|row| vec![SelectedValue::Vertex(row.vid), SelectedValue::Vertex(row.vid)])
            .collect()
    }
}

type Merged = (GraphEdgeMergeStats, GraphEdgeMergeOutcome, EmbeddedTxnCompletion);

fn merge_edge(
    db: &mut Database,
    grant: &Grant,
    merge: &GraphEdgeMerge,
    policy: GraphEdgeMergePolicy,
    rows: impl FnMut(&View) -> Vec<Vec<SelectedValue>>,
) -> (Result<Merged, Fault>, u64) {
    let mut session = Session::new(grant.host(), Metering::SignedQuery);
    let mut selector = ScopedRecord::new(Pairs { rows });
    let done = db.execute_graph_edge_merge_authorized(
        NAMESPACE,
        &grant.verified(),
        merge,
        policy,
        &mut identities().borrow_mut(),
        &mut selector,
        &mut durable(),
        &mut session,
    );
    let seen = session.host().budget.borrow().seen;
    (done.map(|((stats, outcome), completion)| (stats, outcome, completion)), seen)
}

#[test]
fn creates_once_reduces_duplicate_pairs_and_reopens() {
    let mut db = open();
    edge_merge_seed(&mut db, true, false);
    let before = db.frontier().unwrap();
    let merge = definition(S, vec![]);
    let (stats, outcome, completion) =
        merge_edge(&mut db, &edge_merge_grant(), &merge, edge_policy(), related).0.unwrap();
    let created = match outcome {
        GraphEdgeMergeOutcome::Created(eid) => eid,
        other => panic!("missing creation: {other:?}"),
    };
    assert_eq!(
        (stats.match_selection.result_rows, stats.overlay_edges, stats.created_edges),
        (2, 0, 1)
    );
    let seq = db.frontier().unwrap();
    assert_eq!(seq.0, before.0 + 1);
    assert_eq!(completion, EmbeddedTxnCompletion::WriteCommitted { commit_seq: seq });
    let entry = edge(&db, created).unwrap().entry;
    assert_eq!((entry.src, entry.relation, entry.dst), (VId(1), S, VId(2)));
    let unlimited = GraphEdgeMergePolicy { max_created_edges: 0, ..edge_policy() };
    let (stats, outcome, completion) =
        merge_edge(&mut db, &edge_merge_grant(), &merge, unlimited, related).0.unwrap();
    assert_eq!(outcome, GraphEdgeMergeOutcome::Matched(created));
    assert_eq!((stats.created_edges, stats.overlay_edges), (0, 1));
    assert!(matches!(completion, EmbeddedTxnCompletion::ReadClosed { .. }));
    assert_eq!(db.frontier().unwrap(), seq);
}

#[test]
fn ambiguous_pairs_parallel_eids_and_null_endpoints_never_allocate_or_commit() {
    for mode in 0..3 {
        let mut db = open();
        edge_merge_seed(&mut db, false, mode == 1);
        if mode == 1 {
            let mut extra = WriteBatch::new(S);
            extra.add_edge(EId(22), VId(1), VId(2), vec![]);
            seed(&mut db, extra);
        }
        let before = image(&db);
        let grant = edge_merge_grant();
        let fault = match mode {
            0 => merge_edge(&mut db, &grant, &definition(S, vec![]), edge_policy(), loops(L, None)).0,
            1 => merge_edge(&mut db, &grant, &definition(S, vec![]), edge_policy(), related).0,
            _ => {
                let optional = |view: &View| {
                    view.labelled(L)
                        .into_iter()
                        .filter(|row| value(&row.props, P) == Some(10))
                        .map(|row| vec![SelectedValue::Vertex(row.vid), SelectedValue::Null])
                        .collect()
                };
                merge_edge(&mut db, &grant, &definition(R, vec![]), edge_policy(), optional).0
            }
        }
        .unwrap_err();
        match (mode, fault) {
            (0, Fault::AmbiguousEndpointPairs { observed: 2 })
            | (1, Fault::AmbiguousRelationships { observed: 2 })
            | (2, Fault::NullEndpoint { row: 0, column: 1 }) => {}
            other => panic!("unexpected ambiguity result: {other:?}"),
        }
        assert_eq!(image(&db), before);
    }
}

#[test]
fn empty_input_has_no_receipt_or_creation_and_self_loop_is_one_edge() {
    let mut db = open();
    edge_merge_seed(&mut db, true, false);
    let before = image(&db);
    let frontier = db.frontier().unwrap();
    let zero = edge_merge_grant().limited(LimitDimension::Rows, 0);
    let none = GraphEdgeMergePolicy { max_created_edges: 0, ..edge_policy() };
    let (stats, outcome, completion) =
        merge_edge(&mut db, &zero, &definition(S, vec![]), none, loops(HIDDEN, None)).0.unwrap();
    assert_eq!(outcome, GraphEdgeMergeOutcome::NoInput);
    assert_eq!(
        (stats.match_selection.result_rows, stats.overlay_edges, stats.created_edges),
        (0, 0, 0)
    );
    assert!(matches!(completion, EmbeddedTxnCompletion::ReadClosed { .. }));
    assert_eq!(image(&db), before);
    let (_, outcome, _) = merge_edge(
        &mut db,
        &edge_merge_grant(),
        &definition(S, vec![]),
        edge_policy(),
        loops(L, Some(10)),
    )
    .0
    .unwrap();
    match outcome {
        GraphEdgeMergeOutcome::Created(eid) => {
            let entry = edge(&db, eid).unwrap().entry;
            assert_eq!((entry.src, entry.dst), (VId(1), VId(1)));
        }
        other => panic!("missing creation: {other:?}"),
    }
    assert_eq!(db.frontier().unwrap().0, frontier.0 + 1);
}

#[test]
fn rights_relation_creation_fields_and_receipt_limits_refuse_before_publication() {
    for matched in [false, true] {
        let mut db = open();
        edge_merge_seed(&mut db, true, matched);
        let before = image(&db);
        let merge = definition(S, vec![]);
        for rights in [Rights::Read, Rights::Write] {
            let grant = Grant { rights, work: 0, ..edge_merge_grant() };
            let fault = merge_edge(&mut db, &grant, &merge, edge_policy(), related).0.unwrap_err();
            assert_eq!(authorization(fault), Denial::PermissionDenied);
        }
        let zero = edge_merge_grant().limited(LimitDimension::Rows, 0);
        let fault = merge_edge(&mut db, &zero, &merge, edge_policy(), related).0.unwrap_err();
        assert_eq!(authorization(fault), Denial::LimitExceeded(LimitDimension::Rows));
        let forbidden = definition(H, vec![]);
        let fault =
            merge_edge(&mut db, &edge_merge_grant(), &forbidden, edge_policy(), loops(HIDDEN, None))
                .0
                .unwrap_err();
        assert_eq!(authorization(fault), Denial::ScopeDenied);
        let fields = definition(S, vec![(SECRET, number(999))]);
        let result = merge_edge(&mut db, &edge_merge_grant(), &fields, edge_policy(), related).0;
        if matched {
            assert_eq!(result.unwrap().1, GraphEdgeMergeOutcome::Matched(EId(21)));
        } else {
            assert_eq!(authorization(result.unwrap_err()), Denial::ScopeDenied);
            let none = GraphEdgeMergePolicy { max_created_edges: 0, ..edge_policy() };
            let fault =
                merge_edge(&mut db, &edge_merge_grant(), &merge, none, related).0.unwrap_err();
            assert_eq!(fault, Fault::CreationLimit { limit: 0, observed: 1 });
        }
        assert_eq!(image(&db), before);
    }
}

#[test]
fn hidden_graph_changes_no_signed_or_native_refusal_threshold() {
    for matched in [false, true] {
        // Signed work and nodes and native records, work and scratch share the same
        // logical visible domain.
        for dimension in 0..5 {
            let mut floors = Vec::new();
            for hidden in [false, true] {
                floors.push(floor(4096, |limit| {
                    let mut grant = edge_merge_grant();
                    let mut policy = edge_policy();
                    match dimension {
                        0 => grant.work = limit,
                        1 => grant.nodes = limit,
                        2 => policy.query.max_snapshot_records = Some(limit),
                        3 => policy.query.max_work_units = limit,
                        _ => policy.query.max_scratch_entries = limit,
                    }
                    let mut db = open();
                    edge_merge_seed(&mut db, hidden, matched);
                    let before = image(&db);
                    match merge_edge(&mut db, &grant, &definition(S, vec![]), policy, related).0 {
                        Ok((stats, outcome, _)) => {
                            assert_eq!(stats.created_edges, u64::from(!matched));
                            assert_eq!(
                                matches!(outcome, GraphEdgeMergeOutcome::Created(_)),
                                !matched
                            );
                            true
                        }
                        Err(fault) => {
                            match dimension {
                                0 => assert_eq!(
                                    authorization(fault),
                                    Denial::LimitExceeded(LimitDimension::Work)
                                ),
                                1 => assert_eq!(
                                    authorization(fault),
                                    Denial::LimitExceeded(LimitDimension::Nodes)
                                ),
                                2 => assert!(matches!(fault, Fault::Rows { .. })),
                                _ => assert!(matches!(fault, Fault::Evaluator { .. })),
                            }
                            assert_eq!(image(&db), before);
                            false
                        }
                    }
                }));
            }
            assert_eq!(floors[0], floors[1], "matched={matched}, dimension={dimension}");
        }
    }
}

#[test]
fn every_live_expiry_boundary_discards_creation_and_releases_the_pin() {
    let mut db = open();
    edge_merge_seed(&mut db, true, false);
    let (done, total) = merge_edge(
        &mut db,
        &edge_merge_grant(),
        &definition(S, vec![]),
        edge_policy(),
        related,
    );
    done.unwrap();
    assert!(total > 10);
    for cutoff in 0..total {
        let mut db = open();
        edge_merge_seed(&mut db, true, false);
        let before = image(&db);
        let expiring = edge_merge_grant().expiring(cutoff + 1);
        let fault = merge_edge(&mut db, &expiring, &definition(S, vec![]), edge_policy(), related)
            .0
            .unwrap_err();
        assert_eq!(authorization(fault), Denial::Expired, "cutoff={cutoff}");
        assert_eq!(image(&db), before);
    }
}

/// A selector that hands one selection over.
struct Selected(Option<Selection>);

impl PairSelector for Selected {
    fn select(
        &mut self,
        pattern: u64,
        _policy: QueryPolicy,
        _transaction: &WriteTxn,
        _database: &Database,
    ) -> Result<SelectedPairs, Fault> {
        assert_eq!(pattern, 3);
        let selection = self.0.take().unwrap();
        let observed = Observations {
            elements: vec![],
            expansions: vec![],
            labels: vec![],
            vertices: false,
            edges: false,
        };
        Ok(SelectedPairs { selection, observed })
    }
}

#[test]
fn shared_native_collector_retains_negative_edge_conflict_witnesses() {
    let mut db = open();
    edge_merge_seed(&mut db, false, false);
    let mut transaction = WriteTxn::begin(&db).unwrap();
    let everything = Grant::new(Rights::ReadWrite).verified().unwrap();
    let source = Some(SelectionSource::Committed);
    let view = masked(&source, &everything, true, &transaction, &db);
    let rows = related(&view);
    let selection = Selection { stats: stats(&view, rows.len()), rows };
    let mut selector = SelectorRecord::new(Selected(Some(selection)));
    let mut session = Session::new(Native { issued: 79, ..Native::new() }, Metering::Free);
    let (_, outcome) = transaction
        .execute_graph_edge_merge_governed(
            &db,
            &definition(S, vec![]),
            edge_policy(),
            &mut selector,
            &mut session,
        )
        .unwrap();
    assert_eq!(outcome, GraphEdgeMergeOutcome::Created(EId(80)));
    let mut competing = WriteBatch::new(S);
    competing.add_edge(EId(81), VId(1), VId(2), vec![]);
    seed(&mut db, competing);
    let seq = db.frontier().unwrap();
    assert!(finish(&mut transaction, &mut db).is_err());
    assert_eq!(db.frontier().unwrap(), seq);
    assert!(edge(&db, EId(80)).is_none());
    assert!(edge(&db, EId(81)).is_some());
}

const ACTIVE: LabelId = LabelId(3);

type Programmed = Result<(Vec<StepReceipt>, EmbeddedTxnCompletion, ProgramStats), ProgramFault>;

fn run_mutations(
    db: &mut Database,
    grant: &Grant,
    count: usize,
    statement: impl FnMut(usize, &View) -> Result<StepDraft, Fault>,
) -> (Programmed, u64) {
    let mut session = Session::new(grant.host(), Metering::SignedQuery);
    let mut collector = Recorder::new(Matcher { statement });
    let statements = (0..count).map(|id| statement_under(id, policy())).collect();
    let done = db.execute_graph_mutation_program_authorized(
        NAMESPACE,
        &grant.verified(),
        &statements,
        &mut identities().borrow_mut(),
        &mut collector,
        &mut durable(),
        &mut session,
    );
    let seen = session.host().budget.borrow().seen;
    (done.map(|((stats, receipts), completion)| (receipts, completion, stats)), seen)
}

fn run_program(
    db: &mut Database,
    grant: &Grant,
    kinds: Vec<StatementKind>,
    returning: bool,
    identities: &RefCell<IdentityState>,
    statement: impl FnMut(usize, &View) -> Result<StepDraft, Fault>,
) -> (Programmed, u64) {
    let mut session = Session::new(grant.host(), Metering::SignedQuery);
    let mut collector = Recorder::new(Matcher { statement });
    let verified = grant.verified();
    let form = |(id, kind)| Prepared { kind, statement: statement_under(id, policy()) };
    let forms = kinds.into_iter().enumerate().map(form).collect();
    let (v, f, i) = (&verified, &forms, &mut *identities.borrow_mut());
    let (c, p, s) = (&mut collector, &mut durable(), &mut session);
    let done = if returning {
        db.execute_graph_write_program_returning_authorized(NAMESPACE, v, f, i, c, p, s)
    } else {
        db.execute_graph_write_program_authorized(NAMESPACE, v, f, i, c, p, s)
    };
    let seen = session.host().budget.borrow().seen;
    (done.map(|((stats, receipts), completion)| (receipts, completion, stats)), seen)
}

fn program_denial(fault: ProgramFault) -> Denial {
    match fault {
        ProgramFault::Open(fault) | ProgramFault::Step { fault, .. } => authorization(fault),
        ProgramFault::Interrupted(stopped) => authorization(Fault::Source(stopped.source)),
    }
}

fn program_grant() -> Grant {
    Grant {
        labels: Some(vec![L, ACTIVE]),
        relations: Some(vec![R]),
        properties: Some(vec![P, Q]),
        ..Grant::new(Rights::ReadWrite)
    }
}

fn program_seed(db: &mut Database, hidden: bool) {
    let mut batch = WriteBatch::new(R);
    let mut props = vec![(P, number(10))];
    if hidden {
        props.push((SECRET, number(77)));
    }
    batch.create_vertex(VId(1), vec![L], props);
    let labels = if hidden { vec![L, HIDDEN] } else { vec![L] };
    batch.create_vertex(VId(2), labels, vec![(P, number(20))]);
    for id in [11, 12] {
        batch.add_edge(EId(id), VId(1), VId(2), vec![(P, number(1))]);
    }
    if hidden {
        batch.create_vertex(VId(3), vec![HIDDEN], vec![(P, number(10))]);
        batch.add_edge(EId(13), VId(1), VId(3), vec![]);
    }
    seed(db, batch);
    if hidden {
        let mut batch = WriteBatch::new(H);
        batch.add_edge(EId(21), VId(1), VId(2), vec![]);
        seed(db, batch);
    }
}

fn assign_p(vertex: VId, key: PropertyKeyId, to: i64) -> MutationIntent {
    MutationIntent::Property { vertex, key, value: Some(number(to)) }
}

/// Three statements, each of which selects what the one before it wrote.
fn dependent(index: usize, view: &View) -> Result<StepDraft, Fault> {
    let mut intents = Vec::new();
    match index {
        0 => {
            for row in view.labelled(L) {
                if value(&row.props, P) == Some(10) {
                    view.selected(1);
                    intents.push(assign_p(row.vid, P, 11));
                    intents.push(assign_p(row.vid, Q, 10));
                    intents.push(MutationIntent::Label {
                        vertex: row.vid,
                        label: ACTIVE,
                        present: true,
                    });
                }
            }
        }
        1 => {
            let mut tail = Vec::new();
            for (a, e, b) in view.between(R, L) {
                if a.labels.contains(&ACTIVE) && value(&a.props, P) == Some(11) {
                    view.selected(view.rows.get() + 1);
                    intents.push(MutationIntent::EdgeProperty {
                        edge: e.entry.eid,
                        key: P,
                        value: Some(number(11)),
                    });
                    let q = if value(&a.props, SECRET).is_none() {
                        value(&a.props, Q).unwrap()
                    } else {
                        999
                    };
                    if tail.is_empty() {
                        tail.push(assign_p(b.vid, Q, q));
                    }
                }
            }
            intents.extend(tail);
        }
        _ => {
            for row in view.labelled(L) {
                if value(&row.props, Q) == Some(10) && value(&row.props, P) == Some(20) {
                    view.selected(1);
                    intents.push(assign_p(row.vid, P, 110));
                }
            }
        }
    }
    Ok(StepDraft::Mutation { relation: R, intents })
}

#[test]
fn dependent_statements_see_canonical_masked_effects_and_publish_once() {
    let mut db = open();
    program_seed(&mut db, true);
    let before = db.frontier().unwrap();
    let shown = |db: &Database| {
        format!("{:?}", (vertex(db, VId(3)), edge(db, EId(13)), edge(db, EId(21))))
    };
    let hidden = shown(&db);
    let (receipts, completion, counted) = run_mutations(&mut db, &program_grant(), 3, dependent).0.unwrap();
    assert_eq!(
        (counted.completed_statements, counted.mutation_effects, counted.result_rows),
        (3, 7, 4)
    );
    assert!(receipts.is_empty());
    assert_eq!(
        vertex(&db, VId(1)).unwrap().props,
        vec![(P, number(11)), (SECRET, number(77)), (Q, number(10))]
    );
    assert_eq!(vertex(&db, VId(2)).unwrap().props, vec![(P, number(110)), (Q, number(10))]);
    for id in [11, 12] {
        assert_eq!(edge(&db, EId(id)).unwrap().props, vec![(P, number(11))]);
    }
    assert_eq!(shown(&db), hidden);
    let seq = db.frontier().unwrap();
    assert_eq!(seq.0, before.0 + 1);
    assert_eq!(completion, EmbeddedTxnCompletion::WriteCommitted { commit_seq: seq });
}

#[test]
fn forbidden_or_conflicting_tail_discards_prior_statements() {
    for tail in 0..3 {
        let mut db = open();
        program_seed(&mut db, true);
        let before = image(&db);
        let statement = |index: usize, view: &View| {
            let wanted = if index == 0 { 10 } else { 11 };
            let matched: Vec<VId> = view
                .labelled(L)
                .into_iter()
                .filter(|row| value(&row.props, P) == Some(wanted))
                .map(|row| row.vid)
                .collect();
            let intents = matched
                .into_iter()
                .map(|vertex| match (index, tail) {
                    (0, _) => Ok(assign_p(vertex, P, 11)),
                    (_, 0) => Ok(MutationIntent::Property { vertex, key: SECRET, value: None }),
                    (_, 1) => Err(Fault::ActionLimit { limit: 1, observed: 2 }),
                    _ => Ok(MutationIntent::Label { vertex, label: L, present: false }),
                })
                .collect::<Result<Vec<_>, Fault>>()?;
            Ok(StepDraft::Mutation { relation: R, intents })
        };
        let fault = run_mutations(&mut db, &program_grant(), 2, statement).0.unwrap_err();
        assert!(matches!(fault, ProgramFault::Step { completed: 1, .. }));
        assert_eq!(image(&db), before);
    }
}

#[test]
fn deleted_incidence_never_reappears_in_a_later_match() {
    let mut db = open();
    program_seed(&mut db, false);
    let statement = |index: usize, view: &View| {
        let intents = if index == 0 {
            view.labelled(L)
                .into_iter()
                .filter(|row| value(&row.props, P) == Some(10))
                .map(|row| MutationIntent::DetachDelete { vertex: row.vid })
                .collect()
        } else {
            view.between(R, L).into_iter().map(|(_, _, b)| assign_p(b.vid, Q, 999)).collect()
        };
        Ok(StepDraft::Mutation { relation: R, intents })
    };
    let (_, _, counted) =
        run_mutations(&mut db, &Grant::new(Rights::ReadWrite), 2, statement).0.unwrap();
    assert_eq!((counted.completed_statements, counted.mutation_effects), (2, 1));
    assert!(vertex(&db, VId(1)).is_none());
    assert_eq!(counts(&db).1, 0);
    assert_eq!(vertex(&db, VId(2)).unwrap().props, vec![(P, number(20))]);
}

#[test]
fn empty_program_execution_read_closes_but_still_requires_readwrite() {
    let mut db = open();
    program_seed(&mut db, true);
    let before = image(&db);
    let statement = |_: usize, view: &View| {
        let intents = view
            .labelled(HIDDEN)
            .into_iter()
            .filter(|row| value(&row.props, P) == Some(999))
            .map(|row| assign_p(row.vid, P, 1))
            .collect();
        Ok(StepDraft::Mutation { relation: R, intents })
    };
    for rights in [Rights::Read, Rights::Write] {
        let grant = Grant { rights, work: 0, ..program_grant() };
        let fault = run_mutations(&mut db, &grant, 2, statement).0.unwrap_err();
        assert_eq!(program_denial(fault), Denial::PermissionDenied);
    }
    let (_, completion, counted) = run_mutations(&mut db, &program_grant(), 2, statement).0.unwrap();
    assert_eq!((counted.completed_statements, counted.mutation_effects), (2, 0));
    assert!(matches!(completion, EmbeddedTxnCompletion::ReadClosed { .. }));
    assert_eq!(image(&db), before);
}

#[test]
fn hidden_overlay_data_changes_neither_signed_thresholds_nor_visible_stats() {
    for dimension in [LimitDimension::Work, LimitDimension::Nodes] {
        let mut floors = Vec::new();
        for hidden in [false, true] {
            floors.push(floor(8192, |limit| {
                let limited = program_grant().limited(dimension, limit);
                let mut db = open();
                program_seed(&mut db, hidden);
                let before = image(&db);
                match run_mutations(&mut db, &limited, 3, dependent).0 {
                    Ok(_) => true,
                    Err(fault) => {
                        assert_eq!(program_denial(fault), Denial::LimitExceeded(dimension));
                        assert_eq!(image(&db), before);
                        false
                    }
                }
            }));
        }
        assert_eq!(floors[0], floors[1], "hidden overlay changed {dimension:?}");
    }
}

#[test]
fn expiry_during_program_or_final_validation_never_commits_a_prefix() {
    let mut db = open();
    program_seed(&mut db, true);
    let (done, count) = run_mutations(&mut db, &program_grant(), 3, dependent);
    done.unwrap();
    assert!(count > 10);
    for cutoff in [1, count / 2, count - 1] {
        let mut db = open();
        program_seed(&mut db, true);
        let before = image(&db);
        let expiring = program_grant().expiring(cutoff + 1);
        let fault = run_mutations(&mut db, &expiring, 3, dependent).0.unwrap_err();
        assert_eq!(program_denial(fault), Denial::Expired);
        assert_eq!(image(&db), before);
    }
}

fn full_grant() -> Grant {
    Grant::new(Rights::ReadWrite)
}

fn mixed_kinds() -> Vec<StatementKind> {
    vec![
        StatementKind::Insert { selects: false },
        StatementKind::Insert { selects: true },
        StatementKind::Mutation,
        StatementKind::Delete,
        StatementKind::Delete,
    ]
}

/// Create a pair, derive a third vertex, update it, and delete what it came from.
fn crud(index: usize, view: &View) -> Result<StepDraft, Fault> {
    let deletes = |vertices: Vec<u128>, edges: Vec<u128>, rows: usize| StepDraft::Delete {
        proposal: DeleteProposal {
            relation: R,
            stats: stats(view, rows),
            vertices: ids(vertices),
            edges: ids(edges),
        },
    };
    Ok(match index {
        0 => {
            let (a, first) = new_vertex(view, L, vec![(P, number(10))]);
            let (b, second) = new_vertex(view, L, vec![(P, number(20))]);
            let third = new_edge(view, R, a, b, vec![(P, number(1))]);
            StepDraft::Insert { relation: R, drafts: vec![first, second, third] }
        }
        1 => {
            let mut drafts = Vec::new();
            for (a, _, b) in view.between(R, L) {
                let sum = value(&a.props, P).unwrap() + value(&b.props, P).unwrap();
                let (copy, draft) = new_vertex(view, L, vec![(P, number(sum))]);
                drafts.push(draft);
                drafts.push(new_edge(view, S, End::Known(b.vid), copy, vec![(P, number(2))]));
            }
            StepDraft::Insert { relation: R, drafts }
        }
        2 => {
            let mut intents = Vec::new();
            for (a, e, b) in view.between(S, L) {
                intents.push(assign_p(a.vid, P, value(&b.props, P).unwrap() + 1));
                intents.push(MutationIntent::EdgeProperty {
                    edge: e.entry.eid,
                    key: P,
                    value: Some(number(9)),
                });
            }
            StepDraft::Mutation { relation: R, intents }
        }
        3 => {
            let edges: Vec<u128> =
                view.between(R, L).into_iter().map(|found| found.1.entry.eid.0).collect();
            let rows = edges.len();
            deletes(vec![], edges, rows)
        }
        _ => {
            let vertices: Vec<u128> = view
                .labelled(L)
                .into_iter()
                .filter(|row| value(&row.props, P) == Some(10))
                .map(|row| row.vid.0)
                .collect();
            let rows = vertices.len();
            deletes(vertices, vec![], rows)
        }
    })
}

#[test]
fn dependent_cross_relation_crud_has_ordered_receipts_one_commit_and_reopen() {
    let mut db = open();
    let before = db.frontier().unwrap();
    let (receipts, completion, counted) =
        run_program(&mut db, &full_grant(), mixed_kinds(), true, &identities(), crud).0.unwrap();
    assert_eq!(
        (
            counted.completed_statements,
            counted.created_vertices,
            counted.created_edges,
            counted.mutation_effects
        ),
        (5, 3, 2, 4)
    );
    assert_eq!(
        receipts.iter().map(targets).collect::<Vec<_>>(),
        vec![
            (vec![VId(1), VId(2)], vec![EId(1)]),
            (vec![VId(3)], vec![EId(2)]),
            (vec![VId(2)], vec![EId(2)]),
            (vec![], vec![EId(1)]),
            (vec![VId(1)], vec![]),
        ]
    );
    let seq = db.frontier().unwrap();
    assert_eq!(seq.0, before.0 + 1);
    assert_eq!(completion, EmbeddedTxnCompletion::WriteCommitted { commit_seq: seq });
    assert!(vertex(&db, VId(1)).is_none());
    assert_eq!(vertex(&db, VId(2)).unwrap().props, vec![(P, number(31))]);
    assert_eq!(vertex(&db, VId(3)).unwrap().props, vec![(P, number(30))]);
    assert!(edge(&db, EId(1)).is_none());
    let record = edge(&db, EId(2)).unwrap();
    assert_eq!((record.entry.src, record.entry.relation, record.entry.dst), (VId(2), S, VId(3)));
    assert_eq!(record.props, vec![(P, number(9))]);
}

fn insert_one(p: i64) -> impl FnMut(usize, &View) -> Result<StepDraft, Fault> {
    move |_, view| {
        let (_, draft) = new_vertex(view, L, vec![(P, number(p))]);
        Ok(StepDraft::Insert { relation: R, drafts: vec![draft] })
    }
}

#[test]
fn denied_tail_discards_created_prefix_without_reclaiming_issued_ids() {
    let mut db = open();
    let before = db.frontier().unwrap();
    let grant = Grant { properties: Some(vec![P]), ..full_grant() };
    let issued = identities();
    let kinds = vec![StatementKind::Insert { selects: false }, StatementKind::Mutation];
    let statement = |index: usize, view: &View| {
        if index == 0 {
            return insert_one(10)(index, view);
        }
        let intents = view
            .labelled(L)
            .into_iter()
            .flat_map(|row| vec![assign_p(row.vid, P, 11), assign_p(row.vid, SECRET, 99)])
            .collect();
        Ok(StepDraft::Mutation { relation: R, intents })
    };
    let fault = run_program(&mut db, &grant, kinds, true, &issued, statement).0.unwrap_err();
    assert_eq!(program_denial(fault), Denial::ScopeDenied);
    assert_eq!(db.frontier().unwrap(), before);
    assert_eq!(counts(&db), (0, 0));
    let kinds = vec![StatementKind::Insert { selects: false }];
    let (receipts, _, _) =
        run_program(&mut db, &grant, kinds, true, &issued, insert_one(10)).0.unwrap();
    assert_eq!(targets(&receipts[0]).0, vec![VId(2)]);
    assert_eq!(db.frontier().unwrap().0, before.0 + 1);
}

#[test]
fn receipt_row_budget_accumulates_across_kinds_before_publication() {
    // The five receipts hold 3 + 2 + 2 + 1 + 1 identities. Reusing an identity in a
    // later step neither restarts nor deduplicates its row bill.
    for rows in [0, 3, 5, 7, 8, 9] {
        let mut db = open();
        let before = db.frontier().unwrap();
        let limited = full_grant().limited(LimitDimension::Rows, rows);
        let result = run_program(&mut db, &limited, mixed_kinds(), true, &identities(), crud).0;
        if rows < 9 {
            assert_eq!(
                program_denial(result.unwrap_err()),
                Denial::LimitExceeded(LimitDimension::Rows)
            );
            assert_eq!(db.frontier().unwrap(), before);
            assert_eq!(counts(&db), (0, 0));
        } else {
            assert_eq!(result.unwrap().0.len(), 5);
            assert_eq!(db.frontier().unwrap().0, before.0 + 1);
        }
    }
    let mut db = open();
    let zero = full_grant().limited(LimitDimension::Rows, 0);
    let (_, _, counted) =
        run_program(&mut db, &zero, mixed_kinds(), false, &identities(), crud).0.unwrap();
    assert_eq!(counted.completed_statements, 5);
}

#[test]
fn plain_delete_proves_incidence_from_staged_creations_and_prior_deletions() {
    for remove_all in [false, true] {
        let mut db = open();
        let before = db.frontier().unwrap();
        let mut kinds = vec![StatementKind::Insert { selects: false }, StatementKind::Delete];
        if remove_all {
            kinds.push(StatementKind::Delete);
        }
        let statement = |index: usize, view: &View| {
            if index == 0 {
                return pair_insert(
                    vec![
                        (0, R, 1, vec![(P, number(1))]),
                        (0, R, 1, vec![(P, number(2))]),
                        (0, S, 0, vec![]),
                    ],
                    vec![],
                )(index, view);
            }
            match (remove_all, index) {
                (true, 1) => deletion(S, false, true, false, None)(index, view),
                (true, _) => deletion(R, true, true, true, None)(index, view),
                _ => deletion(R, true, true, false, Some(1))(index, view),
            }
        };
        let result = run_program(&mut db, &full_grant(), kinds, true, &identities(), statement).0;
        if remove_all {
            let (receipts, _, counted) = result.unwrap();
            assert_eq!(counted.mutation_effects, 5);
            assert_eq!(targets(&receipts[2]), (vec![VId(1), VId(2)], vec![EId(1), EId(2)]));
            assert_eq!(db.frontier().unwrap().0, before.0 + 1);
        } else {
            assert_eq!(
                result.unwrap_err(),
                ProgramFault::Step { completed: 1, fault: Fault::IncidentRelationships }
            );
            assert_eq!(db.frontier().unwrap(), before);
        }
        assert_eq!(counts(&db), (0, 0));
    }
}

fn next_vertex(db: &Database, issued: &RefCell<IdentityState>) -> ElementId {
    db.allocate_identity(&mut issued.borrow_mut(), IdentityKind::Vertex, &mut free()).unwrap()
}

#[test]
fn whole_program_rights_and_unsupported_tail_are_checked_before_allocating() {
    for mode in 0..3 {
        let mut db = open();
        let before = db.frontier().unwrap();
        let issued = identities();
        let write_only = Grant { rights: Rights::Write, work: 0, ..full_grant() };
        let tail = match mode {
            0 => StatementKind::Mutation,
            1 => StatementKind::Insert { selects: true },
            _ => StatementKind::EdgeMerge,
        };
        let grant = if mode == 2 { full_grant() } else { write_only };
        let kinds = vec![StatementKind::Insert { selects: false }, tail];
        let fault =
            run_program(&mut db, &grant, kinds, false, &issued, insert_one(10)).0.unwrap_err();
        if mode == 2 {
            assert_eq!(
                fault,
                ProgramFault::Open(Fault::Preflight(WriteTxnError::AuthorizedMutationRefused))
            );
        } else {
            assert_eq!(program_denial(fault), Denial::PermissionDenied);
        }
        assert_eq!(db.frontier().unwrap(), before);
        assert_eq!(counts(&db), (0, 0));
        assert_eq!(next_vertex(&db, &issued), ElementId::Vertex(VId(1)));
    }
    // Write-only authority remains useful: standalone creations need no reading.
    let mut db = open();
    let write = Grant { rights: Rights::Write, rows: 0, ..full_grant() };
    let kinds = vec![StatementKind::Insert { selects: false }; 2];
    let (_, _, counted) =
        run_program(&mut db, &write, kinds, false, &identities(), insert_one(1)).0.unwrap();
    assert_eq!((counted.completed_statements, counted.created_vertices), (2, 2));
    assert_eq!(counts(&db), (2, 0));
}

#[test]
fn a_proposal_of_another_kind_than_declared_is_refused() {
    let mut db = open();
    let before = image(&db);
    let write = Grant { rights: Rights::Write, ..full_grant() };
    let kinds = vec![StatementKind::Insert { selects: false }];
    let mutating = |_: usize, _: &View| {
        Ok(StepDraft::Mutation { relation: R, intents: vec![assign_p(VId(1), P, 1)] })
    };
    let fault = run_program(&mut db, &write, kinds, false, &identities(), mutating).0.unwrap_err();
    assert_eq!(fault, ProgramFault::Step { completed: 0, fault: Fault::InvalidSourceShape });
    assert_eq!(image(&db), before);
}

#[test]
fn empty_mixed_selection_closes_without_a_marker_or_id_reservation() {
    let mut db = open();
    let before = db.frontier().unwrap();
    let zero = full_grant().limited(LimitDimension::Rows, 0);
    let issued = identities();
    let kinds = vec![
        StatementKind::Insert { selects: true },
        StatementKind::Mutation,
        StatementKind::Delete,
    ];
    let statement = |index: usize, view: &View| {
        let matched = view.labelled(L);
        Ok(match index {
            0 => StepDraft::Insert {
                relation: R,
                drafts: matched.iter().map(|_| new_vertex(view, L, vec![]).1).collect(),
            },
            1 => StepDraft::Mutation {
                relation: R,
                intents: matched.iter().map(|row| assign_p(row.vid, P, 1)).collect(),
            },
            _ => StepDraft::Delete {
                proposal: DeleteProposal {
                    relation: R,
                    stats: stats(view, 0),
                    vertices: ids(matched.iter().map(|row| row.vid.0)),
                    edges: IdSet::new(),
                },
            },
        })
    };
    let (receipts, completion, counted) =
        run_program(&mut db, &zero, kinds, true, &issued, statement).0.unwrap();
    assert_eq!(counted.completed_statements, 3);
    assert_eq!((counted.created_vertices, counted.mutation_effects), (0, 0));
    assert_eq!(receipts.len(), 3);
    assert!(receipts.iter().all(|receipt| targets(receipt) == (vec![], vec![])));
    assert_eq!(
        completion,
        EmbeddedTxnCompletion::ReadClosed { snapshot_seq: before, validated_through: before }
    );
    assert_eq!(db.frontier().unwrap(), before);
    assert_eq!(next_vertex(&db, &issued), ElementId::Vertex(VId(1)));
}

#[test]
fn creation_steps_share_one_signed_node_allowance() {
    let mut floors = Vec::new();
    for steps in [1, 2] {
        floors.push(floor(128, |nodes| {
            let limited = full_grant().limited(LimitDimension::Nodes, nodes);
            let mut db = open();
            let before = db.frontier().unwrap();
            let kinds = vec![StatementKind::Insert { selects: false }; steps];
            match run_program(&mut db, &limited, kinds, false, &identities(), insert_one(1)).0 {
                Ok((_, _, counted)) => {
                    assert_eq!(counted.created_vertices, steps as u128);
                    assert_eq!(counts(&db).0, steps);
                    true
                }
                Err(fault) => {
                    assert_eq!(
                        program_denial(fault),
                        Denial::LimitExceeded(LimitDimension::Nodes)
                    );
                    assert_eq!(db.frontier().unwrap(), before);
                    assert_eq!(counts(&db), (0, 0));
                    false
                }
            }
        }));
    }
    assert_eq!(floors[1], 2 * floors[0], "per-statement permits reset the node allowance");
}

#[test]
fn expiry_before_final_publication_discards_all_mixed_steps() {
    let mut db = open();
    let (done, count) =
        run_program(&mut db, &full_grant(), mixed_kinds(), true, &identities(), crud);
    done.unwrap();
    assert!(count > 10);
    for cutoff in [1, count / 3, 2 * count / 3, count - 1] {
        let mut db = open();
        let before = db.frontier().unwrap();
        let expiring = full_grant().expiring(cutoff + 1);
        let fault = run_program(&mut db, &expiring, mixed_kinds(), true, &identities(), crud)
            .0
            .unwrap_err();
        assert_eq!(program_denial(fault), Denial::Expired);
        assert_eq!(db.frontier().unwrap(), before);
        assert_eq!(counts(&db), (0, 0));
    }
}

fn matching(view: &View, p: i64) -> Option<VId> {
    view.labelled(L)
        .into_iter()
        .find(|row| value(&row.props, P) == Some(p))
        .map(|row| row.vid)
}

fn target(view: &View, properties: Vec<(PropertyKeyId, CanonicalScalar)>) -> MergeTarget {
    match matching(view, 7) {
        Some(vertex) => MergeTarget::Matched(vertex),
        None => {
            view.issue(IdentityKind::Vertex);
            MergeTarget::Missing { labels: vec![L], properties }
        }
    }
}

fn merge_step(view: &View, props: Vec<(PropertyKeyId, CanonicalScalar)>) -> StepDraft {
    StepDraft::VertexMerge { relation: R, target: target(view, props) }
}

/// MERGE (a:Visible {p: 7}) with the actions of one branch.
fn upsert_step(
    view: &View,
    on_create: Vec<VertexAction>,
    on_match: Vec<VertexAction>,
) -> StepDraft {
    let target = target(view, vec![(P, number(7))]);
    let actions = match &target {
        MergeTarget::Matched(_) => on_match,
        MergeTarget::Missing { .. } => on_create,
    };
    let controls = vec![Control::Work; actions.len()];
    StepDraft::VertexUpsert { relation: R, target, controls, actions: Ok(actions) }
}

fn set(key: PropertyKeyId, to: i64) -> VertexAction {
    VertexAction::Property { key, value: Some(number(to)) }
}

fn merge_kinds() -> Vec<StatementKind> {
    vec![StatementKind::VertexMerge, StatementKind::VertexUpsert, StatementKind::VertexMerge]
}

fn merge_program(index: usize, view: &View) -> Result<StepDraft, Fault> {
    Ok(if index == 1 {
        upsert_step(view, vec![set(Q, 100)], vec![set(Q, 20)])
    } else {
        merge_step(view, vec![(P, number(7))])
    })
}

fn scoped_merge_grant() -> Grant {
    Grant { labels: Some(vec![L]), properties: Some(vec![P, Q]), ..full_grant() }
}

fn seed_merge(db: &mut Database, hidden: bool) {
    let mut batch = WriteBatch::new(R);
    let mut props = vec![(P, number(7))];
    if hidden {
        props.push((SECRET, number(77)));
    }
    batch.create_vertex(VId(1), vec![L], props);
    if hidden {
        batch.create_vertex(VId(900), vec![LabelId(9)], vec![(P, number(7))]);
        batch.add_edge(EId(900), VId(1), VId(900), vec![]);
    }
    seed(db, batch);
}

fn outcome(receipt: &StepReceipt) -> (VId, bool) {
    match receipt {
        StepReceipt::Vertex { vertex, created } => (*vertex, *created),
        other => panic!("not a merged vertex: {other:?}"),
    }
}

#[test]
fn vertex_merge_and_branch_actions_observe_prior_steps_publish_once_and_reopen() {
    let mut db = open();
    let before = db.frontier().unwrap();
    let issued = identities();
    let (receipts, completion, counted) =
        run_program(&mut db, &scoped_merge_grant(), merge_kinds(), true, &issued, merge_program)
            .0
            .unwrap();
    assert_eq!(
        (counted.completed_statements, counted.created_vertices, counted.mutation_effects),
        (3, 1, 1)
    );
    assert_eq!(
        receipts.iter().map(outcome).collect::<Vec<_>>(),
        vec![(VId(1), true), (VId(1), false), (VId(1), false)]
    );
    let seq = db.frontier().unwrap();
    assert_eq!(seq.0, before.0 + 1);
    assert_eq!(completion, EmbeddedTxnCompletion::WriteCommitted { commit_seq: seq });
    assert_eq!(vertex(&db, VId(1)).unwrap().props, vec![(P, number(7)), (Q, number(20))]);
    let kinds = vec![StatementKind::VertexMerge];
    let (receipts, completion, _) =
        run_program(&mut db, &scoped_merge_grant(), kinds, true, &issued, merge_program)
            .0
            .unwrap();
    assert_eq!(outcome(&receipts[0]), (VId(1), false));
    assert_eq!(
        completion,
        EmbeddedTxnCompletion::ReadClosed { snapshot_seq: seq, validated_through: seq }
    );
    assert_eq!(next_vertex(&db, &issued), ElementId::Vertex(VId(2)));
}

#[test]
fn vertex_upsert_executes_only_the_selected_branch_and_preserves_hidden_fields() {
    for existing in [false, true] {
        let mut db = open();
        if existing {
            seed_merge(&mut db, true);
        }
        // The forbidden action stands in the branch that is not selected.
        let (create, update) = if existing { (SECRET, Q) } else { (Q, SECRET) };
        let statement = |_: usize, view: &View| {
            Ok(upsert_step(view, vec![set(create, 8)], vec![set(update, 8)]))
        };
        let kinds = vec![StatementKind::VertexUpsert];
        let (receipts, _, counted) =
            run_program(&mut db, &scoped_merge_grant(), kinds, true, &identities(), statement)
                .0
                .unwrap();
        assert_eq!(counted.mutation_effects, 1);
        assert_eq!(counted.created_vertices, u128::from(!existing));
        assert_eq!(outcome(&receipts[0]), (VId(1), !existing));
        let mut expected = vec![(P, number(7))];
        if existing {
            expected.push((SECRET, number(77)));
        }
        expected.push((Q, number(8)));
        assert_eq!(vertex(&db, VId(1)).unwrap().props, expected);
        if existing {
            assert!(vertex(&db, VId(900)).is_some());
            assert!(edge(&db, EId(900)).is_some());
        }
    }
}

#[test]
fn hidden_matching_vertices_neither_suppress_creation_nor_make_a_match_ambiguous() {
    for visible in [false, true] {
        let mut db = open();
        let mut batch = WriteBatch::new(R);
        batch.create_vertex(VId(900), vec![LabelId(9)], vec![(P, number(7))]);
        if visible {
            batch.create_vertex(VId(1), vec![L], vec![(P, number(7))]);
        }
        seed(&mut db, batch);
        let kinds = vec![StatementKind::VertexMerge];
        let (receipts, _, _) =
            run_program(&mut db, &scoped_merge_grant(), kinds, true, &identities(), merge_program)
                .0
                .unwrap();
        let (merged, created) = outcome(&receipts[0]);
        assert_eq!(created, !visible);
        assert_ne!(merged, VId(900));
        if visible {
            assert_eq!(merged, VId(1));
        }
        assert_eq!(vertex(&db, VId(900)).unwrap().props, vec![(P, number(7))]);
    }
}

#[test]
fn forbidden_merge_creation_and_selected_actions_or_scope_escape_roll_back_every_step() {
    for mode in 0..4 {
        let mut db = open();
        if mode >= 2 {
            seed_merge(&mut db, true);
        }
        let before = image(&db);
        let tail = if mode == 0 { StatementKind::VertexMerge } else { StatementKind::VertexUpsert };
        let kinds = vec![StatementKind::Insert { selects: false }, tail];
        let statement = |index: usize, view: &View| {
            if index == 0 {
                return insert_one(123)(index, view);
            }
            let nothing = vec![];
            Ok(match mode {
                0 => merge_step(view, vec![(P, number(7)), (SECRET, number(99))]),
                1 => upsert_step(view, vec![set(Q, 8), set(SECRET, 99)], nothing),
                2 => upsert_step(view, nothing, vec![set(Q, 8), set(SECRET, 77)]),
                _ => {
                    upsert_step(view, nothing, vec![VertexAction::Label { label: L, present: false }])
                }
            })
        };
        let fault =
            run_program(&mut db, &scoped_merge_grant(), kinds, true, &identities(), statement)
                .0
                .unwrap_err();
        // The origin tells the MERGE from the actions that follow it.
        let staging = matches!(fault, ProgramFault::Step { fault: Fault::Staging(_), .. });
        assert_eq!(staging, mode != 0, "mode={mode}");
        assert_eq!(program_denial(fault), Denial::ScopeDenied, "mode={mode}");
        assert_eq!(image(&db), before);
    }
}

#[test]
fn merge_receipts_cost_one_row_per_outcome_and_stats_only_cost_no_rows() {
    for rows in 0..=3 {
        let mut db = open();
        let before = db.frontier().unwrap();
        let limited = full_grant().limited(LimitDimension::Rows, rows);
        let result =
            run_program(&mut db, &limited, merge_kinds(), true, &identities(), merge_program).0;
        if rows < 3 {
            assert_eq!(
                program_denial(result.unwrap_err()),
                Denial::LimitExceeded(LimitDimension::Rows)
            );
            assert_eq!(db.frontier().unwrap(), before);
            assert_eq!(counts(&db), (0, 0));
        } else {
            assert_eq!(result.unwrap().0.len(), 3);
        }
    }
    let mut db = open();
    let zero = full_grant().limited(LimitDimension::Rows, 0);
    let (_, _, counted) =
        run_program(&mut db, &zero, merge_kinds(), false, &identities(), merge_program).0.unwrap();
    assert_eq!((counted.created_vertices, counted.mutation_effects), (1, 1));
    assert_eq!(counts(&db), (1, 0));
}

#[test]
fn merge_and_upsert_require_readwrite_before_a_prefix_can_allocate() {
    for rights in [Rights::Read, Rights::Write] {
        for tail in [StatementKind::VertexMerge, StatementKind::VertexUpsert] {
            let mut db = open();
            let before = db.frontier().unwrap();
            let issued = identities();
            let grant = Grant { rights, work: 0, ..full_grant() };
            let kinds = vec![StatementKind::Insert { selects: false }, tail];
            let fault =
                run_program(&mut db, &grant, kinds, false, &issued, insert_one(1)).0.unwrap_err();
            assert_eq!(program_denial(fault), Denial::PermissionDenied);
            assert_eq!(db.frontier().unwrap(), before);
            assert_eq!(next_vertex(&db, &issued), ElementId::Vertex(VId(1)));
        }
    }
}

#[test]
fn hidden_merge_data_changes_neither_stats_nor_work_and_node_refusal_thresholds() {
    let statement = |index: usize, view: &View| {
        Ok(if index == 0 {
            upsert_step(view, vec![], vec![set(Q, 8)])
        } else {
            merge_step(view, vec![(P, number(7))])
        })
    };
    for dimension in [LimitDimension::Work, LimitDimension::Nodes] {
        let mut floors = Vec::new();
        for hidden in [false, true] {
            floors.push(floor(4096, |limit| {
                let limited = scoped_merge_grant().limited(dimension, limit);
                let mut db = open();
                seed_merge(&mut db, hidden);
                let before = image(&db);
                let kinds = vec![StatementKind::VertexUpsert, StatementKind::VertexMerge];
                match run_program(&mut db, &limited, kinds, false, &identities(), statement).0 {
                    Ok(_) => true,
                    Err(fault) => {
                        assert_eq!(program_denial(fault), Denial::LimitExceeded(dimension));
                        assert_eq!(image(&db), before);
                        false
                    }
                }
            }));
        }
        assert_eq!(floors[0], floors[1], "hidden data changed {dimension:?}");
    }
    // Two matched-only merges admit the visible vertex twice.
    for nodes in [1, 2] {
        let mut db = open();
        seed_merge(&mut db, true);
        let limited = scoped_merge_grant().limited(LimitDimension::Nodes, nodes);
        let kinds = vec![StatementKind::VertexMerge; 2];
        let matched = |_: usize, view: &View| Ok(merge_step(view, vec![(P, number(7))]));
        let result = run_program(&mut db, &limited, kinds, false, &identities(), matched).0;
        if nodes == 1 {
            assert_eq!(
                program_denial(result.unwrap_err()),
                Denial::LimitExceeded(LimitDimension::Nodes)
            );
        } else {
            assert!(matches!(result.unwrap().1, EmbeddedTxnCompletion::ReadClosed { .. }));
        }
    }
}

#[test]
fn expiry_during_merge_creation_branch_actions_or_final_validation_rolls_back() {
    let mut db = open();
    let (done, count) =
        run_program(&mut db, &full_grant(), merge_kinds(), true, &identities(), merge_program);
    done.unwrap();
    assert!(count > 10);
    for cutoff in [1, count / 3, 2 * count / 3, count - 1] {
        let mut db = open();
        let before = db.frontier().unwrap();
        let expiring = full_grant().expiring(cutoff + 1);
        let fault =
            run_program(&mut db, &expiring, merge_kinds(), true, &identities(), merge_program)
                .0
                .unwrap_err();
        assert_eq!(program_denial(fault), Denial::Expired);
        assert_eq!(db.frontier().unwrap(), before);
        assert_eq!(counts(&db), (0, 0));
    }
}

#[test]
fn refused_branch_actions_discard_the_staged_creation() {
    let mut db = open();
    let before = db.frontier().unwrap();
    let limit = Fault::ActionLimit { limit: 0, observed: 1 };
    let statement = |_: usize, view: &View| {
        let target = target(view, vec![(P, number(7))]);
        Ok(StepDraft::VertexUpsert { relation: R, target, controls: vec![], actions: Err(limit) })
    };
    let kinds = vec![StatementKind::VertexUpsert];
    let fault =
        run_program(&mut db, &full_grant(), kinds, true, &identities(), statement).0.unwrap_err();
    assert_eq!(fault, ProgramFault::Step { completed: 0, fault: limit });
    assert_eq!(db.frontier().unwrap(), before);
    assert_eq!(counts(&db), (0, 0));
}

/// A collector with one answer.
struct Answers(Option<Collected>);

impl Collector for Answers {
    fn propose(
        &mut self,
        _index: usize,
        _prepared: &Prepared,
        _source: &Option<SelectionSource>,
        _scope: &Predicates,
        _transaction: &WriteTxn,
        _database: &Database,
    ) -> Collected {
        self.0.take().unwrap()
    }
}

fn insert_answered(
    db: &mut Database,
    grant: &Grant,
    identities: &RefCell<IdentityState>,
    answer: Collected,
) -> Result<StepReceipt, Fault> {
    let mut session = Session::new(grant.host(), Metering::SignedQuery);
    db.execute_graph_insert_returning_authorized(
        NAMESPACE,
        &grant.verified(),
        false,
        statement_under(0, policy()),
        &mut identities.borrow_mut(),
        &mut Recorder::new(Answers(Some(answer))),
        &mut durable(),
        &mut session,
    )
    .map(|((_, receipt), _)| receipt)
}

fn one_draft(draft: Draft) -> Result<Proposed, SelectionError> {
    let draft = StepDraft::Insert { relation: R, drafts: vec![draft] };
    let view = masked(
        &None,
        &full_grant().verified().unwrap(),
        false,
        &WriteTxn::begin(&open()).unwrap(),
        &open(),
    );
    Ok(Proposed { stats: counted(&view, &draft), draft })
}

#[test]
fn what_a_collector_reports_is_told_apart() {
    let vertex = || Draft::Vertex { labels: vec![L], properties: vec![] };
    let issue = |kind| vec![Callback::Issue(kind)];
    let issued = identities();
    let mut db = open();
    let before = image(&db);
    let denied = Denial::LimitExceeded(LimitDimension::Rows);
    for (error, fault) in [
        (SelectionError::Native(Fault::InvalidSourceStatistics), Fault::InvalidSourceStatistics),
        (
            SelectionError::Control(ControlError::Authorization(denied)),
            Fault::Interrupted(WriteTxnError::Authorization(denied)),
        ),
        (
            SelectionError::Control(ControlError::Interrupted(4)),
            Fault::Interrupted(WriteTxnError::Interrupted(4)),
        ),
        (SelectionError::Other, Fault::Source(WriteTxnError::AuthorizedMutationRefused)),
    ] {
        let answer = Collected { callbacks: vec![], outcome: Err(error) };
        let refused = insert_answered(&mut db, &full_grant(), &issued, answer);
        assert_eq!(refused.err(), Some(fault));
    }
    // Creations need exactly the identities that were asked for, and endpoints that are
    // there before their edge.
    let dangling = Draft::Edge {
        relation: R,
        source: End::New(0),
        destination: End::New(0),
        properties: vec![],
    };
    for (callbacks, draft) in [
        (vec![], vertex()),
        (issue(IdentityKind::Edge), vertex()),
        (issue(IdentityKind::Edge), dangling),
    ] {
        let answer = Collected { callbacks, outcome: one_draft(draft) };
        let refused = insert_answered(&mut db, &full_grant(), &issued, answer);
        assert_eq!(refused.err(), Some(Fault::InvalidSourceShape));
    }
    // A stopped control outweighs the proposal that follows it.
    let callbacks = vec![Callback::Control(Control::Node), Callback::Issue(IdentityKind::Vertex)];
    let answer = Collected { callbacks, outcome: one_draft(vertex()) };
    let limited = full_grant().limited(LimitDimension::Nodes, 0);
    let refused = insert_answered(&mut db, &limited, &issued, answer);
    let denied = Denial::LimitExceeded(LimitDimension::Nodes);
    assert_eq!(refused.err(), Some(Fault::Interrupted(WriteTxnError::Authorization(denied))));
    assert_eq!(image(&db), before);
    // The identities come from the handle, and a refused call gives none back.
    issued.borrow_mut().vertex = 40;
    let answer =
        Collected { callbacks: issue(IdentityKind::Vertex), outcome: one_draft(vertex()) };
    let receipt = insert_answered(&mut db, &full_grant(), &issued, answer).unwrap();
    assert_eq!(targets(&receipt), (vec![VId(41)], vec![]));
    issued.borrow_mut().vertex = u128::MAX;
    let answer =
        Collected { callbacks: issue(IdentityKind::Vertex), outcome: one_draft(vertex()) };
    let refused = insert_answered(&mut db, &full_grant(), &issued, answer);
    assert_eq!(refused.err(), Some(Fault::IdentitySource(WriteTxnError::IdentityExhausted)));
}

/// A publisher that loses every write.
struct Lost(Fence);

impl Publisher for Lost {
    fn publish(&mut self, _prepared: &PreparedWrite, _commit_seq: CommitSeq) -> Publication {
        Publication::Failed { error: WriteTxnError::Interrupted(9), fence: self.0 }
    }
}

#[test]
fn a_lost_publication_interrupts_a_program_with_its_finished_statements() {
    for fence in [Fence::Clear, Fence::Unknown] {
        let mut db = open();
        let before = db.snapshot_frontier();
        let statement = insert_one(10);
        let form = |id| Prepared {
            kind: StatementKind::Insert { selects: false },
            statement: statement_under(id, policy()),
        };
        let done = db.execute_graph_write_program_authorized(
            NAMESPACE,
            &full_grant().verified(),
            &vec![form(0), form(1)],
            &mut identities().borrow_mut(),
            &mut Recorder::new(Matcher { statement }),
            &mut PublisherRecord::new(Lost(fence)),
            &mut Session::new(full_grant().host(), Metering::SignedQuery),
        );
        let source = WriteTxnError::Interrupted(9);
        let stopped = ProgramInterrupted { completed_statements: 2, source };
        assert_eq!(done.err(), Some(ProgramFault::Interrupted(stopped)));
        assert_eq!(db.snapshot_frontier(), before);
        let fenced = matches!(db.state, DatabaseState::CommitOutcomeUnknown { .. });
        assert_eq!(fenced, fence == Fence::Unknown);
    }
}
