//! Views that are maintained commit by commit: sets, windows and triangles.

use fgdb::batch::{PendingRow, WriteBatch, WriteMismatchPolicy};
use fgdb::database::Database;
use fgdb::errors::{Denial, LimitDimension, WriteError, WriteTxnError};
use fgdb::finish::CompletionStep;
use fgdb::graph::{AdjacencyEntry, DeltaRow, EdgeRecord, VertexRow};
use fgdb::ids::{
    CanonicalScalar, CommitSeq, EId, ElementId, LabelId, PropertyKeyId, RelationId, VId,
};
use fgdb::idset::IdSet;
use fgdb::kernel::{KernelRecord, ViewKernel};
use fgdb::queries::{BindError, BoundPlan, Observations, QueryAnswer};
use fgdb::session::{EdgeImage, Fields, Host, IdentityKind, Metering, Session};
use fgdb::standing::{Meter, Shapes, StandingQueryFailure, StandingQueryStats, ZSetEvent};
use fgdb::standing_registry::{
    delta, RowView, StandingQuery, StandingQueryError, StandingQueryHandle, GraphSetBuildError,
};
use fgdb::standing_sets::{GraphSetColumnType, KernelEvents, SetOperation, SetView};
use fgdb::standing_triangles::{TriangleChange, TriangleError, TriangleQuantifier, TriangleView};
use fgdb::standing_window::{
    GraphSetQuantifier, GraphValueOrder, RowWindowError, RowWindowPage, RowWindowSpec, WindowView,
};
use fgdb::statement::QueryPolicy;
use fgdb::template::{Coordinate, Template};
use fgdb::txn::{EmbeddedTxnCompletion, PreparedWrite, WriteTxn};
use fgdb::weight::Weight;
use fgdb::zset::{Canonical, Triple, ZSet};
use std::cell::RefCell;
use std::collections::{BTreeMap, BTreeSet};
use std::rc::Rc;

/// What a capability has left, and whether it is still live.
struct Budget {
    seen: u64,
    stop: Option<u64>,
    refusal: WriteTxnError,
    work: u64,
    nodes: u64,
    rows: u64,
}

impl Budget {
    fn poll(&mut self) -> Result<(), WriteTxnError> {
        self.seen += 1;
        match self.stop {
            Some(stop) if self.seen >= stop => Err(self.refusal),
            _ => Ok(()),
        }
    }

    fn charge(&mut self, dimension: LimitDimension, amount: u64) -> Result<(), Denial> {
        let left = match dimension {
            LimitDimension::Work => &mut self.work,
            LimitDimension::Nodes => &mut self.nodes,
            LimitDimension::Rows => &mut self.rows,
        };
        if *left < amount {
            return Err(Denial::LimitExceeded(dimension));
        }
        *left -= amount;
        Ok(())
    }
}

/// The process around a transaction: cancellation, allowances, a scope, the native
/// evaluator and an allocator.
struct Native {
    budget: Rc<RefCell<Budget>>,
    labels: Option<Vec<LabelId>>,
    relations: Option<Vec<RelationId>>,
    properties: Option<Vec<PropertyKeyId>>,
    issued: u128,
    repeats: bool,
}

impl Native {
    fn new() -> Native {
        Native {
            budget: Rc::new(RefCell::new(Budget {
                seen: 0,
                stop: None,
                refusal: WriteTxnError::NoPreparedWrite,
                work: u64::MAX,
                nodes: u64::MAX,
                rows: u64::MAX,
            })),
            labels: None,
            relations: None,
            properties: None,
            issued: 1000,
            repeats: false,
        }
    }

    fn sees(&self, row: &VertexRow) -> bool {
        match &self.labels {
            None => true,
            Some(labels) => row.labels.iter().any(|label| labels.contains(label)),
        }
    }

    fn reaches(&self, image: &EdgeImage) -> bool {
        let relation = match &self.relations {
            None => true,
            Some(relations) => relations.contains(&image.edge.entry.relation),
        };
        relation && self.sees(&image.src) && self.sees(&image.dst)
    }

    fn writes(&self, properties: &IdSet) -> bool {
        match &self.properties {
            None => true,
            Some(keys) => {
                (0..properties.len()).all(|i| keys.iter().any(|key| key.0 as u128 == properties.at(i)))
            }
        }
    }
}

/// Evaluate all intents in order, and keep their canonical net effects.
fn evaluate(database: &Database, staged: &[WriteBatch]) -> Result<PreparedWrite, WriteError> {
    let basis = database.snapshot_frontier();
    let vertex_map = database.vertex_map_at(basis).unwrap();
    let edge_map = database.edge_map_at(basis).unwrap();
    let mut vertices: BTreeMap<u128, VertexRow> = BTreeMap::new();
    for i in 0..vertex_map.len() {
        vertices.insert(vertex_map.key_at(i), vertex_map.value_at(i).copy());
    }
    let mut edges: BTreeMap<u128, EdgeRecord> = BTreeMap::new();
    for i in 0..edge_map.len() {
        edges.insert(edge_map.key_at(i), edge_map.value_at(i).copy());
    }
    let mut cascaded: BTreeMap<u128, BTreeSet<u128>> = BTreeMap::new();
    let mut ordinal: u64 = 0;
    for batch in staged {
        for row in &batch.rows {
            ordinal += 1;
            match row {
                PendingRow::Vertex { vid, labels, props, ensure } => {
                    if vertices.contains_key(&vid.0) {
                        if !ensure {
                            return Err(WriteError::Evaluation(1));
                        }
                    } else {
                        let mut labels = labels.clone();
                        labels.sort_by_key(|label| label.0);
                        let mut props = props.clone();
                        props.sort_by_key(|prop| prop.0 .0);
                        vertices.insert(
                            vid.0,
                            VertexRow { vid: *vid, birth_ordinal: ordinal, labels, props },
                        );
                    }
                }
                PendingRow::Edge { eid, src, dst, props, ensure } => {
                    if !vertices.contains_key(&src.0) || !vertices.contains_key(&dst.0) {
                        return Err(WriteError::Evaluation(2));
                    }
                    let present = edges.values().any(|edge| {
                        edge.entry.src == *src
                            && edge.entry.dst == *dst
                            && edge.entry.relation == batch.relation
                    });
                    if *ensure && present {
                        continue;
                    }
                    if edges.contains_key(&eid.0) {
                        return Err(WriteError::Evaluation(3));
                    }
                    let mut props = props.clone();
                    props.sort_by_key(|prop| prop.0 .0);
                    edges.insert(
                        eid.0,
                        EdgeRecord {
                            entry: AdjacencyEntry {
                                src: *src,
                                relation: batch.relation,
                                dst: *dst,
                                eid: *eid,
                                created_at: basis,
                                retired_at: None,
                            },
                            props,
                        },
                    );
                }
                PendingRow::DeleteVertex { vid } => {
                    if vertices.remove(&vid.0).is_none() {
                        return Err(WriteError::Evaluation(4));
                    }
                    let incident: Vec<u128> = edges
                        .values()
                        .filter(|edge| edge.entry.src == *vid || edge.entry.dst == *vid)
                        .map(|edge| edge.entry.eid.0)
                        .collect();
                    for eid in incident {
                        edges.remove(&eid);
                        cascaded.entry(vid.0).or_default().insert(eid);
                    }
                }
                PendingRow::DeleteEdge { eid, if_present } => {
                    if edges.remove(&eid.0).is_none() && !if_present {
                        return Err(WriteError::Evaluation(5));
                    }
                }
                PendingRow::SetLabel { vid, label, present } => match vertices.get_mut(&vid.0) {
                    None => return Err(WriteError::Evaluation(6)),
                    Some(row) => {
                        row.labels.retain(|held| held != label);
                        if *present {
                            row.labels.push(*label);
                        }
                        row.labels.sort_by_key(|label| label.0);
                    }
                },
                PendingRow::SetProperty { vid, key, value } => match vertices.get_mut(&vid.0) {
                    None => return Err(WriteError::Evaluation(7)),
                    Some(row) => assign(&mut row.props, *key, *value),
                },
                PendingRow::SetEdgeProperty { eid, key, value } => match edges.get_mut(&eid.0) {
                    None => return Err(WriteError::Evaluation(8)),
                    Some(row) => assign(&mut row.props, *key, *value),
                },
                PendingRow::CompareAndSet { elem, key, expected, value, policy } => {
                    let props = match elem {
                        ElementId::Vertex(vid) => vertices.get_mut(&vid.0).map(|row| &mut row.props),
                        ElementId::Edge(eid) => edges.get_mut(&eid.0).map(|row| &mut row.props),
                    };
                    match props {
                        None => return Err(WriteError::Evaluation(9)),
                        Some(props) => {
                            let held = props.iter().find(|prop| prop.0 == *key).map(|prop| prop.1);
                            if held == *expected {
                                assign(props, *key, Some(*value));
                            } else if *policy == WriteMismatchPolicy::AbortWrite {
                                return Err(WriteError::Evaluation(10));
                            }
                        }
                    }
                }
            }
        }
    }
    let mut shared: Vec<DeltaRow> = Vec::new();
    let mut slices: BTreeMap<u64, Vec<DeltaRow>> = BTreeMap::new();
    for i in 0..vertex_map.len() {
        let before = vertex_map.value_at(i);
        match vertices.get(&before.vid.0) {
            None => {
                let retired = (0..edge_map.len())
                    .map(|e| edge_map.key_at(e))
                    .filter(|eid| cascaded.get(&before.vid.0).is_some_and(|set| set.contains(eid)))
                    .map(EId)
                    .collect();
                shared.push(DeltaRow::DeleteVertex {
                    vid: before.vid,
                    sorted_retired_incident_edges: retired,
                });
            }
            Some(after) => {
                for label in before.labels.iter().filter(|label| !after.labels.contains(label)) {
                    shared.push(DeltaRow::LabelMembership {
                        vid: before.vid,
                        label: *label,
                        after: false,
                    });
                }
                for label in after.labels.iter().filter(|label| !before.labels.contains(label)) {
                    shared.push(DeltaRow::LabelMembership {
                        vid: before.vid,
                        label: *label,
                        after: true,
                    });
                }
                let elem = ElementId::Vertex(before.vid);
                shared.extend(changed_properties(elem, &before.props, &after.props));
            }
        }
    }
    for (key, after) in &vertices {
        if vertex_map.get(*key).is_none() {
            shared.push(DeltaRow::CreateVertex {
                vid: after.vid,
                birth_ordinal: after.birth_ordinal,
                labels: after.labels.clone(),
                props: after.props.clone(),
            });
        }
    }
    for i in 0..edge_map.len() {
        let before = edge_map.value_at(i);
        let slice = slices.entry(before.entry.relation.0).or_default();
        match edges.get(&before.entry.eid.0) {
            None => {
                if !cascaded.values().any(|set| set.contains(&before.entry.eid.0)) {
                    slice.push(DeltaRow::DeleteEdge { eid: before.entry.eid });
                }
            }
            Some(after) => {
                let elem = ElementId::Edge(before.entry.eid);
                slice.extend(changed_properties(elem, &before.props, &after.props));
            }
        }
    }
    for (key, after) in &edges {
        if edge_map.get(*key).is_none() {
            slices.entry(after.entry.relation.0).or_default().push(DeltaRow::CreateEdge {
                eid: after.entry.eid,
                src: after.entry.src,
                relation: after.entry.relation,
                dst: after.entry.dst,
                props: after.props.clone(),
            });
        }
    }
    let mut coordinates = vec![Coordinate { relation: None, rows: shared }];
    for (relation, rows) in slices {
        coordinates.push(Coordinate { relation: Some(RelationId(relation)), rows });
    }
    coordinates.retain(|coordinate| !coordinate.rows.is_empty());
    Ok(PreparedWrite { template: Template { coordinates }, basis, owner: database.owner })
}

fn assign(
    props: &mut Vec<(PropertyKeyId, CanonicalScalar)>,
    key: PropertyKeyId,
    value: Option<CanonicalScalar>,
) {
    props.retain(|prop| prop.0 != key);
    if let Some(value) = value {
        props.push((key, value));
    }
    props.sort_by_key(|prop| prop.0 .0);
}

fn changed_properties(
    elem: ElementId,
    before: &[(PropertyKeyId, CanonicalScalar)],
    after: &[(PropertyKeyId, CanonicalScalar)],
) -> Vec<DeltaRow> {
    let mut rows = Vec::new();
    for (key, _) in before {
        if !after.iter().any(|prop| prop.0 == *key) {
            rows.push(DeltaRow::Property { elem, property: *key, after: None });
        }
    }
    for prop in after {
        if !before.contains(prop) {
            rows.push(DeltaRow::Property { elem, property: prop.0, after: Some(prop.1) });
        }
    }
    rows
}

impl Host for Native {
    fn poll(&mut self) -> Result<(), WriteTxnError> {
        self.budget.borrow_mut().poll()
    }

    fn poll_query(&mut self) -> Result<(), WriteTxnError> {
        self.poll()
    }

    fn charge(&mut self, dimension: LimitDimension, amount: u64) -> Result<(), Denial> {
        self.budget.borrow_mut().charge(dimension, amount)
    }

    fn check_vertex(
        &mut self,
        before: Option<&VertexRow>,
        after: Option<&VertexRow>,
        fields: &Fields,
    ) -> Result<(), Denial> {
        self.charge(LimitDimension::Nodes, 1)?;
        let admitted = before.map_or(true, |row| self.sees(row))
            && after.map_or(true, |row| self.sees(row))
            && self.writes(&fields.properties);
        if admitted {
            Ok(())
        } else {
            Err(Denial::ScopeDenied)
        }
    }

    fn check_edge(
        &mut self,
        before: Option<&EdgeImage>,
        after: Option<&EdgeImage>,
        properties: &IdSet,
    ) -> Result<(), Denial> {
        self.charge(LimitDimension::Nodes, 1)?;
        let admitted = before.map_or(true, |image| self.reaches(image))
            && after.map_or(true, |image| self.reaches(image))
            && self.writes(properties);
        if admitted {
            Ok(())
        } else {
            Err(Denial::ScopeDenied)
        }
    }

    fn prepare(
        &mut self,
        database: &Database,
        staged: &Vec<WriteBatch>,
    ) -> Result<PreparedWrite, WriteTxnError> {
        let mut write = crate::evaluate(database, staged).map_err(WriteTxnError::Write)?;
        if self.repeats {
            let again = write.template.copy();
            write.template.coordinates.extend(again.coordinates);
        }
        Ok(write)
    }

    fn allocate(&mut self, kind: IdentityKind, _ordinal: u64) -> Result<ElementId, WriteTxnError> {
        self.issued += 1;
        Ok(match kind {
            IdentityKind::Vertex => ElementId::Vertex(VId(self.issued)),
            IdentityKind::Edge => ElementId::Edge(EId(self.issued)),
        })
    }

    fn bind(&mut self, source: &String) -> Result<BoundPlan, BindError> {
        match source.as_str() {
            "MATCH (n:L) RETURN n" => Ok(BoundPlan { relation: None, digest: 1 }),
            "MATCH (n:Unknown) RETURN n" => Err(BindError::Unbound(7)),
            _ => Err(BindError::Parse(3)),
        }
    }

    fn evaluate(
        &mut self,
        transaction: &WriteTxn,
        database: &Database,
        _plan: &BoundPlan,
    ) -> QueryAnswer {
        let map = database.vertex_map_at(transaction.basis).unwrap();
        let rows: Vec<VId> = (0..map.len())
            .filter(|i| map.value_at(*i).labels.contains(&LabelId(1)))
            .map(|i| VId(map.key_at(i)))
            .collect();
        QueryAnswer {
            observed: Observations {
                elements: rows.iter().map(|vid| ElementId::Vertex(*vid)).collect(),
                expansions: vec![],
                labels: vec![LabelId(1)],
                vertices: false,
                edges: false,
            },
            rows: Ok(rows),
        }
    }
}

/// Intents, by name.
trait Intents {
    fn row(&mut self, row: PendingRow) -> &mut Self;

    fn create_vertex(
        &mut self,
        vid: VId,
        labels: Vec<LabelId>,
        props: Vec<(PropertyKeyId, CanonicalScalar)>,
    ) -> &mut Self {
        self.row(PendingRow::Vertex { vid, labels, props, ensure: false })
    }

    fn ensure_vertex(
        &mut self,
        vid: VId,
        labels: Vec<LabelId>,
        props: Vec<(PropertyKeyId, CanonicalScalar)>,
    ) -> &mut Self {
        self.row(PendingRow::Vertex { vid, labels, props, ensure: true })
    }

    fn add_edge(
        &mut self,
        eid: EId,
        src: VId,
        dst: VId,
        props: Vec<(PropertyKeyId, CanonicalScalar)>,
    ) -> &mut Self {
        self.row(PendingRow::Edge { eid, src, dst, props, ensure: false })
    }

    fn ensure_edge_by_triple(
        &mut self,
        eid: EId,
        src: VId,
        dst: VId,
        props: Vec<(PropertyKeyId, CanonicalScalar)>,
    ) -> &mut Self {
        self.row(PendingRow::Edge { eid, src, dst, props, ensure: true })
    }

    fn delete_vertex(&mut self, vid: VId) -> &mut Self {
        self.row(PendingRow::DeleteVertex { vid })
    }

    fn delete_edge(&mut self, eid: EId) -> &mut Self {
        self.row(PendingRow::DeleteEdge { eid, if_present: false })
    }

    fn delete_edge_if_present(&mut self, eid: EId) -> &mut Self {
        self.row(PendingRow::DeleteEdge { eid, if_present: true })
    }

    fn set_vertex_label(&mut self, vid: VId, label: LabelId, present: bool) -> &mut Self {
        self.row(PendingRow::SetLabel { vid, label, present })
    }

    fn set_vertex_property(
        &mut self,
        vid: VId,
        key: PropertyKeyId,
        value: Option<CanonicalScalar>,
    ) -> &mut Self {
        self.row(PendingRow::SetProperty { vid, key, value })
    }

    fn set_edge_property(
        &mut self,
        eid: EId,
        key: PropertyKeyId,
        value: Option<CanonicalScalar>,
    ) -> &mut Self {
        self.row(PendingRow::SetEdgeProperty { eid, key, value })
    }

    fn compare_and_set(
        &mut self,
        elem: ElementId,
        key: PropertyKeyId,
        expected: Option<CanonicalScalar>,
        value: CanonicalScalar,
        policy: WriteMismatchPolicy,
    ) -> &mut Self {
        self.row(PendingRow::CompareAndSet { elem, key, expected, value, policy })
    }
}

impl Intents for WriteBatch {
    fn row(&mut self, row: PendingRow) -> &mut Self {
        self.rows.push(row);
        self
    }
}

fn open() -> Database {
    Database::open_memory(1, 7)
}

fn free() -> Session<Native> {
    Session::new(Native::new(), Metering::Free)
}

/// Publish what a completion accepted.
fn publish(
    transaction: &mut WriteTxn,
    database: &mut Database,
    step: CompletionStep,
) -> Result<EmbeddedTxnCompletion, WriteTxnError> {
    match step {
        CompletionStep::Closed(completion) => Ok(completion),
        CompletionStep::Publish { prepared, guard } => {
            let seq = database.publish(prepared.template);
            transaction.settle(database, guard, Some(Ok(seq))).unwrap()
        }
    }
}

fn finish(
    transaction: &mut WriteTxn,
    database: &mut Database,
) -> Result<EmbeddedTxnCompletion, WriteTxnError> {
    let step = transaction.complete_controlled(database, false, &mut free())?;
    publish(transaction, database, step)
}

fn committed(completion: EmbeddedTxnCompletion) -> CommitSeq {
    match completion {
        EmbeddedTxnCompletion::WriteCommitted { commit_seq } => commit_seq,
        EmbeddedTxnCompletion::ReadClosed { .. } => panic!("nothing was written"),
    }
}

fn commit(transaction: &mut WriteTxn, database: &mut Database) -> Result<CommitSeq, WriteTxnError> {
    let step = transaction.complete_controlled(database, true, &mut free())?;
    publish(transaction, database, step).map(committed)
}

fn write(
    transaction: &mut WriteTxn,
    database: &Database,
    batches: Vec<WriteBatch>,
) -> Result<(), WriteTxnError> {
    transaction.write_ordered(database, batches, &mut free())
}

/// One whole transaction.
fn seed(database: &mut Database, batch: WriteBatch) -> CommitSeq {
    let mut transaction = WriteTxn::begin(database).unwrap();
    write(&mut transaction, database, vec![batch]).unwrap();
    commit(&mut transaction, database).unwrap()
}

fn vertex(database: &Database, vid: VId) -> Option<VertexRow> {
    database.vertex_at(vid, database.snapshot_frontier()).unwrap()
}

fn edge(database: &Database, eid: EId) -> Option<EdgeRecord> {
    database.edge_at(eid, database.snapshot_frontier()).unwrap()
}

fn number(value: i64) -> CanonicalScalar {
    CanonicalScalar::Int(value)
}

fn bounds(records: u64, rows: u64, work: u64, scratch: u64) -> QueryPolicy {
    QueryPolicy {
        max_work_units: work,
        max_scratch_entries: scratch,
        max_snapshot_records: Some(records),
        max_result_rows: Some(rows),
        signed: false,
    }
}

fn ample() -> QueryPolicy {
    bounds(100_000, 100_000, 10_000_000, 10_000_000)
}

fn zset(entries: &[(u128, i128)]) -> ZSet<u128> {
    let mut set = ZSet::new();
    for (row, weight) in entries {
        set.assign(*row, Weight::of(*weight));
    }
    set
}

fn small(weight: Weight) -> i128 {
    weight.small().unwrap()
}

fn runs_of(runs: &Vec<(u128, Weight)>) -> Vec<(u128, i128)> {
    runs.iter().map(|(row, weight)| (*row, small(*weight))).collect()
}

/// The kernels of the tests, or given answers.
struct Kernels {
    invalid: Option<u64>,
    broken: Option<RowWindowError>,
    counted: Option<TriangleChange>,
    change: Option<TriangleChange>,
    asked: u64,
}

impl ViewKernel for Kernels {
    fn validate(&mut self, _spec: &RowWindowSpec) -> Option<u64> {
        self.invalid
    }

    fn page(&mut self, source: &ZSet<u128>, _spec: &RowWindowSpec) -> RowWindowPage {
        self.asked += 1;
        match self.broken {
            Some(error) => RowWindowPage { runs: Err(error), input: vec![], sink: vec![] },
            None => page_of(source),
        }
    }

    fn triangles(
        &mut self,
        database: &Database,
        relation: RelationId,
        _quantifier: TriangleQuantifier,
    ) -> TriangleChange {
        self.asked += 1;
        self.counted.take().unwrap_or_else(|| topology(triangles(database, relation)))
    }

    fn change(&mut self, _view: &TriangleView, _at: CommitSeq) -> TriangleChange {
        self.asked += 1;
        self.change.take().unwrap()
    }
}

fn kernels() -> KernelRecord<Kernels> {
    KernelRecord::new(Kernels { invalid: None, broken: None, counted: None, change: None, asked: 0 })
}

fn counting(counted: TriangleChange) -> KernelRecord<Kernels> {
    let counted = Some(counted);
    KernelRecord::new(Kernels { invalid: None, broken: None, counted, change: None, asked: 0 })
}

fn listing<K: Canonical>(set: &ZSet<K>) -> Vec<(K, i128)> {
    (0..set.len()).map(|i| (set.entry(i).0, small(set.entry(i).1))).collect()
}

fn changed<K: Canonical>(set: &Option<ZSet<K>>) -> Option<Vec<(K, i128)>> {
    set.as_ref().map(listing)
}

/// One column of one value.
fn shapes(rows: &[u128]) -> Shapes {
    let mut shapes = Shapes::new();
    for row in rows {
        shapes.insert(*row, vec![1]);
    }
    shapes
}

fn events(n: usize) -> Vec<ZSetEvent> {
    (0..n).flat_map(|_| [ZSetEvent::Work, ZSetEvent::ScratchEntry]).collect()
}

fn kernel(n: usize) -> KernelEvents {
    KernelEvents { input: events(n), total: events(n), sink: events(n) }
}

fn idle() -> StandingQueryStats {
    StandingQueryStats { delta_rows: 0, work_units: 0, scratch_entries: 0 }
}

/// The bag of the property `p` over the vertices with a label.
fn projection(db: &Database, label: Option<LabelId>) -> ZSet<u128> {
    let map = db.vertex_map_at(db.snapshot_frontier()).unwrap();
    let mut bag: ZSet<u128> = ZSet::new();
    for i in 0..map.len() {
        let row = map.value_at(i);
        if label.is_none_or(|label| row.labels.contains(&label)) {
            for (key, value) in &row.props {
                if let (PropertyKeyId(1), CanonicalScalar::Int(value)) = (*key, *value) {
                    let row = value as u128;
                    let weight = bag.weight(row);
                    bag.assign(row, weight.checked_add(Weight::one()).unwrap());
                }
            }
        }
    }
    bag
}

fn register_rows(db: &mut Database, label: Option<LabelId>) -> StandingQueryHandle {
    let view = RowView {
        columns: vec!["p".to_string()],
        types: vec![GraphSetColumnType::Scalar],
        rows: projection(db, label),
        last_delta: None,
        frontier: db.snapshot_frontier(),
        stats: idle(),
        failure: None,
    };
    db.store_standing_query(StandingQuery::Rows(view))
}

/// Give a row view the change of the latest commit.
fn advance(db: &mut Database, handle: StandingQueryHandle, label: Option<LabelId>) {
    let rows = projection(db, label);
    let at = db.snapshot_frontier();
    if let StandingQuery::Rows(view) = &mut db.standing[handle.index] {
        view.last_delta = Some(rows.change_from(&view.rows));
        view.rows = rows;
        view.frontier = at;
    }
}

/// A session whose `stop`-th poll is refused.
fn stopping(stop: Option<u64>) -> Session<Native> {
    let native = Native::new();
    native.budget.borrow_mut().stop = stop;
    Session::new(native, Metering::Free)
}

fn polls(session: &Session<Native>) -> u64 {
    session.host().budget.borrow().seen
}

fn copied(view: &SetView) -> SetView {
    SetView {
        left_input: view.left_input,
        right_input: view.right_input,
        columns: view.columns.clone(),
        types: view.types.clone(),
        operation: view.operation,
        left: view.left.copy(),
        right: view.right.copy(),
        rows: view.rows.copy(),
        total: view.total,
        last_delta: view.last_delta.as_ref().map(ZSet::copy),
        policy: view.policy,
        frontier: view.frontier,
        stats: view.stats,
        failure: view.failure,
    }
}

fn set_unchanged(view: &SetView, before: &SetView) {
    assert_eq!(listing(&view.left), listing(&before.left));
    assert_eq!(listing(&view.right), listing(&before.right));
    assert_eq!(listing(&view.rows), listing(&before.rows));
    assert_eq!(view.total, before.total);
    assert_eq!(changed(&view.last_delta), changed(&before.last_delta));
    assert_eq!(view.frontier, before.frontier);
    assert_eq!(view.policy, before.policy);
    assert_eq!(view.stats, before.stats);
    assert_eq!(view.failure, before.failure);
    assert_eq!((view.left_input, view.right_input), (before.left_input, before.right_input));
}

#[test]
fn every_composition_refusal_preserves_both_inputs_result_total_and_last_delta() {
    let mut db = open();
    let mut batch = WriteBatch::new(RelationId(1));
    for (id, label, value) in [(1, 1, 1), (2, 1, 2), (3, 2, 2)] {
        batch.create_vertex(
            VId(id),
            vec![LabelId(label)],
            vec![(PropertyKeyId(1), number(value))],
        );
    }
    seed(&mut db, batch);
    let (l, r) = (Some(LabelId(1)), Some(LabelId(2)));
    let left = register_rows(&mut db, l);
    let right = register_rows(&mut db, r);
    let shapes = shapes(&[1, 2, 3]);
    let kernel = kernel(2);
    let prepare = |db: &Database| {
        db.prepare_standing_set(
            left.index,
            right.index,
            SetOperation::UnionAll,
            ample(),
            2,
            &shapes,
            &kernel,
            &mut free(),
        )
        .unwrap_or_else(|error| panic!("{error:?}"))
    };
    let before = prepare(&db);
    assert!(before.last_delta.is_none());
    let mut change = WriteBatch::new(RelationId(1));
    change.set_vertex_property(VId(1), PropertyKeyId(1), Some(number(3)));
    change.set_vertex_property(VId(3), PropertyKeyId(1), Some(number(3)));
    let at = seed(&mut db, change);
    advance(&mut db, left, l);
    advance(&mut db, right, r);
    let expected = prepare(&db);
    let maintain = |db: &Database, policy: QueryPolicy, stop: Option<u64>| {
        let mut state = copied(&before);
        let mut meter = Meter::new(policy);
        let mut session = stopping(stop);
        let done = state.maintain(
            at,
            &db.standing,
            db.standing.len(),
            &shapes,
            &kernel,
            &mut meter,
            &mut session,
        );
        (done, state, meter.stats, polls(&session))
    };
    let (done, success, stats, calls) = maintain(&db, ample(), None);
    done.unwrap();
    assert!(calls > 0 && stats.work_units > 0 && stats.scratch_entries > 0);
    assert_eq!(stats.delta_rows, 4);
    assert_eq!(listing(&success.left), listing(&expected.left));
    assert_eq!(listing(&success.right), listing(&expected.right));
    assert_eq!(listing(&success.rows), listing(&expected.rows));
    assert_eq!(success.total, expected.total);
    assert_eq!(small(success.total), 3);
    assert_eq!(changed(&success.last_delta), Some(vec![(1, -1), (2, -1), (3, 2)]));
    for stop in 1..=calls {
        let (done, state, _, seen) = maintain(&db, ample(), Some(stop));
        assert_eq!(done, Err(StandingQueryFailure::Interrupted), "checkpoint {stop}");
        assert_eq!(seen, stop);
        set_unchanged(&state, &before);
    }
    let (work, scratch) = (stats.work_units, stats.scratch_entries);
    for (work, scratch, rows, error) in [
        (work, scratch, 3, None),
        (work - 1, scratch, 3, Some(StandingQueryFailure::WorkBudget)),
        (work, scratch - 1, 3, Some(StandingQueryFailure::ScratchBudget)),
        (work, scratch, 2, Some(StandingQueryFailure::ResultBudget)),
    ] {
        let (done, state, _, _) = maintain(&db, bounds(0, rows, work, scratch), None);
        match error {
            Some(error) => {
                assert_eq!(done, Err(error));
                set_unchanged(&state, &before);
            }
            None => {
                done.unwrap();
                assert_eq!(listing(&state.rows), listing(&expected.rows));
                assert_eq!(listing(&state.left), listing(&expected.left));
            }
        }
    }
    // A prepared change that is dropped moves nothing.
    let mut state = copied(&before);
    let mut meter = Meter::new(ample());
    let l = delta(&db.standing[left.index]).unwrap();
    let r = delta(&db.standing[right.index]).unwrap();
    let prepared = state.prepare(l, r, &shapes, &kernel, &mut meter, &mut free());
    drop(prepared.unwrap_or_else(|error| panic!("{error:?}")));
    set_unchanged(&state, &before);
    let mut session = free();
    state.maintain(at, &db.standing, 2, &shapes, &kernel, &mut meter, &mut session).unwrap();
    assert_eq!(listing(&state.rows), listing(&expected.rows));
    // A baseline, even at the requested sequence, is not a successor change.
    if let StandingQuery::Rows(view) = &mut db.standing[left.index] {
        view.last_delta = None;
    }
    let (done, stale, _, _) = maintain(&db, ample(), None);
    assert_eq!(done, Err(StandingQueryFailure::DependencyUnavailable));
    set_unchanged(&stale, &before);
    assert_eq!(db.frontier().unwrap(), at);
}

#[test]
fn snapshot_support_limits_are_checked_before_baseline_installation() {
    let mut db = open();
    let mut batch = WriteBatch::new(RelationId(1));
    for id in 1..=8 {
        batch.create_vertex(VId(id), vec![LabelId(1)], vec![(PropertyKeyId(1), number(4))]);
    }
    seed(&mut db, batch);
    let parent = register_rows(&mut db, Some(LabelId(1)));
    let before = db.standing.len();
    let shapes = shapes(&[4]);
    let kernel = kernel(1);
    let mut session = free();
    assert_eq!(
        db.register_standing_set(
            &parent,
            &parent,
            SetOperation::UnionAll,
            bounds(1, 16, 100_000, 100_000),
            &shapes,
            &kernel,
            &mut session,
        ),
        Err(StandingQueryError::Maintenance(StandingQueryFailure::SnapshotBudget))
    );
    assert_eq!(db.standing.len(), before);
    let handle = db
        .register_standing_set(
            &parent,
            &parent,
            SetOperation::UnionAll,
            bounds(2, 16, 100_000, 100_000),
            &shapes,
            &kernel,
            &mut session,
        )
        .unwrap();
    let view = db.standing_set(&handle, &mut session).unwrap_or_else(|error| panic!("{error:?}"));
    assert_eq!(view.rows.len(), 1);
    assert_eq!(db.standing_set_total(&handle, &mut session), Ok(Weight::of(16)));
    let rebuilt = db.prepare_standing_set(
        parent.index,
        parent.index,
        SetOperation::UnionAll,
        bounds(2, 15, 100_000, 100_000),
        handle.index,
        &shapes,
        &kernel,
        &mut session,
    );
    assert_eq!(
        rebuilt.err(),
        Some(StandingQueryError::Maintenance(StandingQueryFailure::ResultBudget))
    );
    assert_eq!(db.standing_set_total(&handle, &mut session), Ok(Weight::of(16)));
    let change = db.standing_set_delta(&handle, &mut session);
    assert!(change.unwrap_or_else(|error| panic!("{error:?}")).is_none());
}

/// The distinct page of two values in descending order.
fn page_of(bag: &ZSet<u128>) -> RowWindowPage {
    let runs: Vec<(u128, Weight)> =
        listing(bag).into_iter().rev().take(2).map(|(row, _)| (row, Weight::one())).collect();
    RowWindowPage { input: events(bag.len()), sink: events(runs.len()), runs: Ok(runs) }
}

fn same_window(left: &WindowView, right: &WindowView) {
    assert_eq!(left.ordered, right.ordered);
    assert_eq!(left.total, right.total);
    assert_eq!(listing(&left.rows), listing(&right.rows));
    assert_eq!(changed(&left.last_delta), changed(&right.last_delta));
    assert_eq!(left.frontier, right.frontier);
    assert_eq!(left.failure, right.failure);
    assert_eq!(left.stats, right.stats);
}

#[test]
fn every_composed_refusal_preserves_ordered_page_canonical_sink_and_last_delta() {
    let mut db = open();
    let mut batch = WriteBatch::new(RelationId(1));
    for id in 1..=3 {
        batch.create_vertex(VId(id), vec![], vec![(PropertyKeyId(1), number(id as i64))]);
    }
    let basis = seed(&mut db, batch);
    let source = register_rows(&mut db, None);
    let shapes = shapes(&[1, 2, 3]);
    let first = page_of(&projection(&db, None));
    let build = || {
        let mut view = WindowView {
            input: source.index,
            columns: vec!["p".to_string()],
            spec: RowWindowSpec {
                input_types: vec![GraphSetColumnType::Scalar],
                order: vec![GraphValueOrder { column: 0, descending: true, nulls_first: false }],
                quantifier: GraphSetQuantifier::Distinct,
                offset: 0,
                count: 2,
            },
            ordered: vec![],
            total: Weight::zero(),
            rows: ZSet::new(),
            last_delta: None,
            policy: ample(),
            frontier: basis,
            stats: idle(),
            failure: None,
        };
        let mut meter = Meter::new(ample());
        view.apply(&first, &shapes, &mut meter, &mut free()).unwrap();
        view.last_delta = None;
        view
    };
    let before = build();
    assert_eq!(runs_of(&before.ordered), vec![(3, 1), (2, 1)]);
    let mut change = WriteBatch::new(RelationId(1));
    change.delete_vertex(VId(3));
    let at = seed(&mut db, change);
    advance(&mut db, source, None);
    let maintain = |policy: QueryPolicy, stop: Option<u64>| {
        let mut view = build();
        let mut meter = Meter::new(policy);
        let mut session = stopping(stop);
        let done = view.maintain(
            at,
            &db.standing,
            db.standing.len(),
            &mut kernels(),
            &shapes,
            &mut meter,
            &mut session,
        );
        (done, view, meter.stats, polls(&session))
    };
    let (done, success, stats, calls) = maintain(ample(), None);
    done.unwrap();
    assert_eq!(runs_of(&success.ordered), vec![(2, 1), (1, 1)]);
    assert_eq!(changed(&success.last_delta), Some(vec![(1, 1), (3, -1)]));
    for stop in 1..=calls {
        let (done, view, _, seen) = maintain(ample(), Some(stop));
        assert_eq!(done, Err(StandingQueryFailure::Interrupted));
        assert_eq!(seen, stop);
        same_window(&view, &before);
    }
    let (work, scratch) = (stats.work_units, stats.scratch_entries);
    for (work, scratch, expected) in [
        (work, scratch, None),
        (work - 1, scratch, Some(StandingQueryFailure::WorkBudget)),
        (work, scratch - 1, Some(StandingQueryFailure::ScratchBudget)),
    ] {
        let (done, view, _, _) = maintain(bounds(100, 2, work, scratch), None);
        match expected {
            Some(error) => {
                assert_eq!(done, Err(error));
                same_window(&view, &before);
            }
            None => {
                done.unwrap();
                same_window(&view, &success);
            }
        }
    }
}

/// The triangles of a relation's undirected projection.
fn triangles(db: &Database, relation: RelationId) -> ZSet<Triple> {
    let map = db.edge_map_at(db.snapshot_frontier()).unwrap();
    let mut sides: BTreeSet<(u128, u128)> = BTreeSet::new();
    for i in 0..map.len() {
        let entry = &map.value_at(i).entry;
        if entry.relation == relation && entry.src != entry.dst {
            let (a, b) = (entry.src.0, entry.dst.0);
            sides.insert((a.min(b), a.max(b)));
        }
    }
    let mut found: ZSet<Triple> = ZSet::new();
    for (a, b) in &sides {
        for (from, c) in &sides {
            if from == b && sides.contains(&(*a, *c)) {
                found.assign(Triple { a: VId(*a), b: VId(*b), c: VId(*c) }, Weight::one());
            }
        }
    }
    found
}

fn topology(triangles: ZSet<Triple>) -> TriangleChange {
    let n = triangles.len();
    TriangleChange {
        triangles: Ok(triangles),
        source: events(3),
        input: events(n),
        sink: events(n),
    }
}

fn triangle_view(db: &Database) -> TriangleView {
    db.prepare_standing_triangles(
        RelationId(1),
        TriangleQuantifier::Distinct,
        ample(),
        &mut kernels(),
        &mut free(),
    )
    .unwrap_or_else(|error| panic!("{error:?}"))
}

fn triangles_unchanged(view: &TriangleView, before: &TriangleView) {
    assert_eq!(listing(&view.rows), listing(&before.rows));
    assert_eq!(view.total, before.total);
    assert_eq!(view.input_frontier, before.input_frontier);
    assert_eq!(view.frontier, before.frontier);
    assert_eq!(view.policy, before.policy);
    assert_eq!(view.stats, before.stats);
    assert_eq!(view.failure, before.failure);
}

#[test]
fn every_input_operator_sink_and_final_refusal_is_atomic_and_retryable() {
    let mut db = open();
    let mut batch = WriteBatch::new(RelationId(1));
    for id in 1..=4 {
        batch.create_vertex(VId(id), vec![], vec![]);
    }
    for (id, a, b) in [(1, 1, 2), (2, 2, 3), (3, 3, 1)] {
        batch.add_edge(EId(id), VId(a), VId(b), vec![]);
    }
    seed(&mut db, batch);
    let baseline = triangles(&db, RelationId(1));
    let frontier = db.snapshot_frontier();
    let before = triangle_view(&db);
    assert_eq!(listing(&before.rows), vec![(Triple { a: VId(1), b: VId(2), c: VId(3) }, 1)]);
    let mut swap = WriteBatch::new(RelationId(1));
    swap.delete_edge(EId(1));
    swap.add_edge(EId(4), VId(1), VId(4), vec![]);
    swap.add_edge(EId(5), VId(4), VId(3), vec![]);
    let at = seed(&mut db, swap);
    let change = triangles(&db, RelationId(1)).change_from(&baseline);
    let expected = triangle_view(&db);
    assert_ne!(listing(&before.rows), listing(&expected.rows));
    let maintain = |policy: QueryPolicy, stop: Option<u64>| {
        let mut view = TriangleView { rows: before.rows.copy(), ..triangle_view(&db) };
        view.total = before.total;
        view.input_frontier = frontier;
        view.frontier = frontier;
        view.stats = before.stats;
        let mut meter = Meter::new(policy);
        let mut session = stopping(stop);
        let change = Some(topology(change.copy()));
        let mut kernel =
            KernelRecord::new(Kernels { invalid: None, broken: None, counted: None, change, asked: 0 });
        let done = view.maintain(at, &mut kernel, &mut meter, &mut session);
        assert_eq!(kernel.kernel().asked, 1);
        (done, view, meter.stats, polls(&session))
    };
    let (done, success, stats, calls) = maintain(ample(), None);
    done.unwrap();
    assert!(calls > 0 && stats.work_units > 0 && stats.scratch_entries > 0);
    assert_eq!(listing(&success.rows), listing(&expected.rows));
    assert_eq!(success.input_frontier, expected.input_frontier);
    assert_eq!(success.input_frontier, at);
    for stop in 1..=calls {
        let (done, view, _, seen) = maintain(ample(), Some(stop));
        assert_eq!(done, Err(StandingQueryFailure::Interrupted), "refusal at {stop}");
        assert_eq!(seen, stop);
        triangles_unchanged(&view, &before);
    }
    // The exact allowance succeeds; one less work or scratch refuses without
    // publishing even a successfully prepared upstream participant.
    let (work, scratch) = (stats.work_units, stats.scratch_entries);
    for (work, scratch, error) in [
        (work, scratch, None),
        (work - 1, scratch, Some(StandingQueryFailure::WorkBudget)),
        (work, scratch - 1, Some(StandingQueryFailure::ScratchBudget)),
    ] {
        let (done, view, _, _) = maintain(bounds(100_000, 1, work, scratch), None);
        match error {
            Some(error) => {
                assert_eq!(done, Err(error));
                triangles_unchanged(&view, &before);
            }
            None => {
                done.unwrap();
                assert_eq!(listing(&view.rows), listing(&expected.rows));
                assert_eq!(view.input_frontier, expected.input_frontier);
            }
        }
    }
}

/// A view over two bags, built by one operation.
fn composed(operation: SetOperation, left: &[(u128, i128)], right: &[(u128, i128)]) -> SetView {
    let mut db = open();
    for rows in [left, right] {
        let view = RowView {
            columns: vec!["p".to_string()],
            types: vec![GraphSetColumnType::Scalar],
            rows: zset(rows),
            last_delta: None,
            frontier: db.snapshot_frontier(),
            stats: idle(),
            failure: None,
        };
        db.store_standing_query(StandingQuery::Rows(view));
    }
    let shapes = shapes(&[1, 2, 3]);
    db.prepare_standing_set(0, 1, operation, ample(), 2, &shapes, &kernel(1), &mut free())
        .unwrap_or_else(|error| panic!("{error:?}"))
}

#[test]
fn each_set_operation_combines_multiplicities() {
    let left = [(1, 3), (2, 1)];
    let right = [(1, 2), (3, 4)];
    for (operation, expected) in [
        (SetOperation::UnionAll, vec![(1, 5), (2, 1), (3, 4)]),
        (SetOperation::UnionDistinct, vec![(1, 1), (2, 1), (3, 1)]),
        (SetOperation::IntersectAll, vec![(1, 2)]),
        (SetOperation::IntersectDistinct, vec![(1, 1)]),
        (SetOperation::ExceptAll, vec![(1, 1), (2, 1)]),
        (SetOperation::ExceptDistinct, vec![(2, 1)]),
    ] {
        let view = composed(operation, &left, &right);
        assert_eq!(listing(&view.rows), expected, "{operation:?}");
        assert_eq!(small(view.total), expected.iter().map(|entry| entry.1).sum::<i128>());
        assert!(view.last_delta.is_none());
    }
}

#[test]
fn maintenance_reaches_the_rebuilt_set_for_every_operation() {
    let (left, right) = ([(1, 3), (2, 1)], [(1, 2), (3, 4)]);
    let (next_left, next_right) = ([(1, 1), (3, 2)], [(1, 2), (2, 5)]);
    for operation in [
        SetOperation::UnionAll,
        SetOperation::UnionDistinct,
        SetOperation::IntersectAll,
        SetOperation::IntersectDistinct,
        SetOperation::ExceptAll,
        SetOperation::ExceptDistinct,
    ] {
        let mut view = composed(operation, &left, &right);
        let l = zset(&next_left).change_from(&zset(&left));
        let r = zset(&next_right).change_from(&zset(&right));
        let shapes = shapes(&[1, 2, 3]);
        let mut meter = Meter::new(ample());
        let update = view
            .prepare(&l, &r, &shapes, &kernel(1), &mut meter, &mut free())
            .unwrap_or_else(|error| panic!("{error:?}"));
        view.commit(&l, &r, update);
        let rebuilt = composed(operation, &next_left, &next_right);
        assert_eq!(listing(&view.rows), listing(&rebuilt.rows), "{operation:?}");
        assert_eq!(view.total, rebuilt.total);
    }
}

#[test]
fn a_count_below_zero_is_an_invalid_change() {
    let view = composed(SetOperation::UnionAll, &[(1, 1)], &[(1, 1)]);
    let mut meter = Meter::new(ample());
    let refused = view.prepare(
        &zset(&[(1, -2)]),
        &zset(&[]),
        &shapes(&[1]),
        &kernel(0),
        &mut meter,
        &mut free(),
    );
    assert_eq!(refused.err(), Some(StandingQueryFailure::InvalidDelta));
    let mut largest = ZSet::new();
    largest.assign(1, vast());
    let refused = view.prepare(
        &largest,
        &zset(&[]),
        &shapes(&[1]),
        &kernel(0),
        &mut meter,
        &mut free(),
    );
    assert_eq!(refused.err(), Some(StandingQueryFailure::Arithmetic));
}

/// The largest weight.
fn vast() -> Weight {
    let mut power = Weight::one();
    while let Some(next) = power.checked_add(power) {
        power = next;
    }
    power.checked_sub(Weight::one()).unwrap().checked_add(power).unwrap()
}

#[test]
fn weights_have_four_limbs() {
    let most = vast();
    assert_eq!(most.checked_add(Weight::one()), None);
    assert_eq!(Weight::zero().checked_sub(most).unwrap().checked_sub(Weight::one()), None);
    assert_eq!(most.checked_sub(most), Some(Weight::zero()));
    assert_eq!(most.small(), None);
    let edge = Weight::of(i128::MAX);
    let past = edge.checked_add(Weight::of(5)).unwrap();
    assert_eq!(past.small(), None);
    assert_eq!(past.checked_sub(edge).unwrap().small(), Some(5));
    assert_eq!(edge.checked_sub(past).unwrap().small(), Some(-5));
    assert_eq!(Weight::of(i128::MIN).small(), Some(i128::MIN));
    let least = Weight::of(i128::MIN).checked_sub(Weight::of(i128::MAX)).unwrap();
    assert!(least.is_negative() && least.is_less(edge) && edge.is_less(past));
    assert_eq!(least.checked_add(Weight::of(i128::MAX)).unwrap().small(), Some(i128::MIN));
    // A carry from the low half.
    let low = Weight::of(i128::MAX).checked_add(Weight::of(i128::MAX)).unwrap();
    let carried = low.checked_add(low).unwrap();
    assert!(low.is_less(carried) && !carried.is_beyond(None) && carried.is_beyond(Some(u64::MAX)));
    assert_eq!(carried.checked_sub(low), Some(low));
}

#[test]
fn a_set_keeps_totals_beyond_one_machine_word() {
    let mut view = composed(SetOperation::UnionAll, &[(1, 1)], &[(1, 1)]);
    let change = zset(&[(1, i128::MAX)]);
    let mut meter = Meter::new(QueryPolicy { max_result_rows: None, ..ample() });
    let shapes = shapes(&[1]);
    let update = view
        .prepare(&change, &zset(&[]), &shapes, &kernel(0), &mut meter, &mut free())
        .unwrap_or_else(|error| panic!("{error:?}"));
    view.commit(&change, &zset(&[]), update);
    assert_eq!(view.total.small(), None);
    assert_eq!(view.total.checked_sub(Weight::of(2)), Some(Weight::of(i128::MAX)));
    // The way back is exact too.
    let back = zset(&[(1, -i128::MAX)]);
    let update = view
        .prepare(&back, &zset(&[]), &shapes, &kernel(0), &mut meter, &mut free())
        .unwrap_or_else(|error| panic!("{error:?}"));
    view.commit(&back, &zset(&[]), update);
    assert_eq!(small(view.total), 2);
}

#[test]
fn a_commit_out_of_order_or_a_missing_parent_is_refused() {
    let mut db = open();
    let parent = register_rows(&mut db, None);
    let at = db.snapshot_frontier();
    let shapes = shapes(&[]);
    let mut view = db
        .prepare_standing_set(0, 0, SetOperation::UnionAll, ample(), 1, &shapes, &kernel(0), &mut free())
        .unwrap_or_else(|error| panic!("{error:?}"));
    let mut meter = Meter::new(ample());
    let mut session = free();
    for wrong in [at, CommitSeq(at.0 + 2)] {
        assert_eq!(
            view.maintain(wrong, &db.standing, 1, &shapes, &kernel(0), &mut meter, &mut session),
            Err(StandingQueryFailure::InvalidDelta)
        );
    }
    // The parent has not taken the commit in, and no view depends on itself.
    let next = CommitSeq(at.0 + 1);
    for before in [1, parent.index] {
        assert_eq!(
            view.maintain(next, &db.standing, before, &shapes, &kernel(0), &mut meter, &mut session),
            Err(StandingQueryFailure::DependencyUnavailable)
        );
    }
}

#[test]
fn handles_answer_for_their_own_database_and_kind_alone() {
    let mut db = open();
    let rows = register_rows(&mut db, None);
    let mut session = free();
    let foreign = StandingQueryHandle { owner: rows.owner + 1, ..rows };
    let unknown = StandingQueryHandle { index: rows.index + 1, ..rows };
    for (handle, error) in [
        (foreign, StandingQueryError::ForeignHandle),
        (unknown, StandingQueryError::UnknownHandle),
        (rows, StandingQueryError::Unsupported),
    ] {
        assert_eq!(db.standing_set(&handle, &mut session).err(), Some(error));
        assert_eq!(db.standing_set_total(&handle, &mut session), Err(error));
        assert_eq!(db.standing_window(&handle, &mut session).err(), Some(error));
        assert_eq!(db.standing_window_total(&handle, &mut session), Err(error));
        assert_eq!(db.standing_triangles(&handle, &mut session).err(), Some(error));
        assert_eq!(db.standing_triangle_total(&handle, &mut session), Err(error));
    }
    let set = db
        .register_standing_set(
            &rows,
            &rows,
            SetOperation::UnionAll,
            ample(),
            &shapes(&[]),
            &kernel(0),
            &mut session,
        )
        .unwrap();
    assert_eq!(db.standing_set_columns(&set, &mut session).unwrap(), &vec!["p".to_string()]);
    assert_eq!(
        db.standing_set(&set, &mut stopping(Some(1))).err(),
        Some(StandingQueryError::Interrupted(WriteTxnError::NoPreparedWrite))
    );
    // A commit that the view has not taken in makes it unavailable, not stale.
    seed(&mut db, {
        let mut batch = WriteBatch::new(RelationId(1));
        batch.create_vertex(VId(1), vec![], vec![]);
        batch
    });
    assert_eq!(
        db.standing_set_total(&set, &mut session),
        Err(StandingQueryError::Unavailable(None))
    );
    if let StandingQuery::Composition(view) = &mut db.standing[set.index] {
        view.failure = Some(StandingQueryFailure::WorkBudget);
    }
    assert_eq!(
        db.standing_set_total(&set, &mut session),
        Err(StandingQueryError::Unavailable(Some(StandingQueryFailure::WorkBudget)))
    );
}

#[test]
fn columns_must_agree_in_number_and_domain() {
    let mut db = open();
    let frontier = db.snapshot_frontier();
    let view = |names: &[&str], kind: GraphSetColumnType| {
        StandingQuery::Rows(RowView {
            columns: names.iter().map(|name| name.to_string()).collect(),
            types: vec![kind; names.len()],
            rows: ZSet::new(),
            last_delta: None,
            frontier,
            stats: idle(),
            failure: None,
        })
    };
    let one = db.store_standing_query(view(&["a"], GraphSetColumnType::Scalar));
    let two = db.store_standing_query(view(&["a", "b"], GraphSetColumnType::Scalar));
    let node = db.store_standing_query(view(&["n"], GraphSetColumnType::Vertex));
    let mut register = |left: &StandingQueryHandle, right: &StandingQueryHandle| {
        db.register_standing_set(
            left,
            right,
            SetOperation::ExceptAll,
            ample(),
            &shapes(&[]),
            &kernel(0),
            &mut free(),
        )
    };
    assert_eq!(
        register(&one, &two),
        Err(StandingQueryError::SetSchema(GraphSetBuildError::ColumnCount { left: 1, right: 2 }))
    );
    assert_eq!(
        register(&one, &node),
        Err(StandingQueryError::SetSchema(GraphSetBuildError::ColumnType {
            column: 0,
            left: GraphSetColumnType::Scalar,
            right: GraphSetColumnType::Vertex,
        }))
    );
    assert!(register(&one, &one).is_ok());
}

#[test]
fn windows_register_over_rows_and_report_kernel_errors() {
    let mut db = open();
    let mut batch = WriteBatch::new(RelationId(1));
    for id in 1..=3 {
        batch.create_vertex(VId(id), vec![], vec![(PropertyKeyId(1), number(id as i64))]);
    }
    seed(&mut db, batch);
    let source = register_rows(&mut db, None);
    let order = vec![GraphValueOrder { column: 0, descending: true, nulls_first: false }];
    let shapes = shapes(&[1, 2, 3]);
    let mut kernel_record = kernels();
    let mut session = free();
    let distinct = GraphSetQuantifier::Distinct;
    let invalid =
        Kernels { invalid: Some(7), broken: None, counted: None, change: None, asked: 0 };
    assert_eq!(
        db.register_standing_window(
            &source,
            order.clone(),
            distinct,
            0,
            2,
            ample(),
            &mut KernelRecord::new(invalid),
            &shapes,
            &mut session,
        ),
        Err(StandingQueryError::WindowSchema(7))
    );
    assert_eq!(kernel_record.kernel().asked, 0);
    for (error, failure) in [
        (RowWindowError::ResultBudget, StandingQueryFailure::ResultBudget),
        (RowWindowError::InputSchema, StandingQueryFailure::InvalidDelta),
        (RowWindowError::NegativeMultiplicity, StandingQueryFailure::InvalidDelta),
        (
            RowWindowError::Delta(StandingQueryFailure::Arithmetic),
            StandingQueryFailure::Arithmetic,
        ),
    ] {
        let broken = Some(error);
        let mut broken =
            KernelRecord::new(Kernels { invalid: None, broken, counted: None, change: None, asked: 0 });
        assert_eq!(
            db.register_standing_window(
                &source,
                order.clone(),
                distinct,
                0,
                2,
                ample(),
                &mut broken,
                &shapes,
                &mut session,
            ),
            Err(StandingQueryError::Maintenance(failure))
        );
    }
    let handle = db
        .register_standing_window(
            &source,
            order,
            distinct,
            0,
            2,
            ample(),
            &mut kernel_record,
            &shapes,
            &mut session,
        )
        .unwrap();
    assert_eq!(kernel_record.kernel().asked, 1);
    assert_eq!(db.standing_window_total(&handle, &mut session), Ok(Weight::of(2)));
    assert_eq!(
        db.standing_window_columns(&handle, &mut session).unwrap(),
        &vec!["p".to_string()]
    );
    assert_eq!(
        runs_of(db.standing_window_ordered(&handle, &mut session).unwrap()),
        vec![(3, 1), (2, 1)]
    );
    let view = db.standing_window(&handle, &mut session);
    let view = view.unwrap_or_else(|error| panic!("{error:?}"));
    assert_eq!(listing(view.rows), vec![(2, 1), (3, 1)]);
    assert!(db
        .standing_window_delta(&handle, &mut session)
        .unwrap_or_else(|error| panic!("{error:?}"))
        .is_none());
    // A window is no operand of a set view.
    for (left, right) in [(&handle, &source), (&source, &handle)] {
        let refused = db.register_standing_set(
            left,
            right,
            SetOperation::UnionAll,
            ample(),
            &shapes,
            &kernel(2),
            &mut session,
        );
        assert_eq!(refused.err(), Some(StandingQueryError::Unsupported));
        let rebuilt = db.prepare_standing_set(
            left.index,
            right.index,
            SetOperation::UnionAll,
            ample(),
            2,
            &shapes,
            &kernel(2),
            &mut session,
        );
        assert_eq!(
            rebuilt.err(),
            Some(StandingQueryError::Maintenance(StandingQueryFailure::DependencyUnavailable))
        );
    }
}

#[test]
fn triangles_register_and_count_exactly() {
    let mut db = open();
    let mut batch = WriteBatch::new(RelationId(1));
    for id in 1..=4 {
        batch.create_vertex(VId(id), vec![], vec![]);
    }
    let mut next: u128 = 0;
    for a in 1..=4u128 {
        for b in a + 1..=4 {
            next += 1;
            batch.add_edge(EId(next), VId(a), VId(b), vec![]);
        }
    }
    seed(&mut db, batch);
    let mut session = free();
    let handle = db
        .register_standing_triangles(
            RelationId(1),
            TriangleQuantifier::Distinct,
            ample(),
            &mut kernels(),
            &mut session,
        )
        .unwrap();
    assert_eq!(db.standing_triangle_total(&handle, &mut session), Ok(Weight::of(4)));
    let view = db.standing_triangles(&handle, &mut session);
    assert_eq!(view.unwrap_or_else(|error| panic!("{error:?}")).rows.len(), 4);
    let limited = db.register_standing_triangles(
        RelationId(1),
        TriangleQuantifier::Distinct,
        bounds(100, 3, 1_000, 1_000),
        &mut kernels(),
        &mut session,
    );
    assert_eq!(
        limited,
        Err(StandingQueryError::Maintenance(StandingQueryFailure::ResultBudget))
    );
    let broken = TriangleChange {
        triangles: Err(TriangleError::Topology),
        source: vec![],
        input: vec![],
        sink: vec![],
    };
    assert_eq!(
        db.register_standing_triangles(
            RelationId(1),
            TriangleQuantifier::All,
            ample(),
            &mut counting(broken),
            &mut session,
        ),
        Err(StandingQueryError::Maintenance(StandingQueryFailure::InvalidDelta))
    );
    // Without a limit, every count is admitted.
    let unlimited = QueryPolicy { max_result_rows: None, max_snapshot_records: None, ..ample() };
    let open_view = db.register_standing_triangles(
        RelationId(1),
        TriangleQuantifier::All,
        unlimited,
        &mut kernels(),
        &mut session,
    );
    assert_eq!(db.standing_triangle_total(&open_view.unwrap(), &mut session), Ok(Weight::of(4)));
    // A baseline with a negative weight is refused, whatever it sums to.
    let mut negative: ZSet<Triple> = ZSet::new();
    negative.assign(Triple { a: VId(1), b: VId(2), c: VId(3) }, Weight::of(-1));
    negative.assign(Triple { a: VId(2), b: VId(3), c: VId(4) }, Weight::of(2));
    let refused = db.register_standing_triangles(
        RelationId(1),
        TriangleQuantifier::All,
        ample(),
        &mut counting(topology(negative)),
        &mut session,
    );
    assert_eq!(
        refused,
        Err(StandingQueryError::Maintenance(StandingQueryFailure::InvalidDelta))
    );
}

#[test]
fn weighted_sets_keep_only_nonzero_weights_in_key_order() {
    let mut set = zset(&[(5, 2), (1, -3), (9, 4)]);
    assert_eq!(listing(&set), vec![(1, -3), (5, 2), (9, 4)]);
    assert_eq!(set.total_weight().map(small), Some(3));
    set.assign(5, Weight::zero());
    assert!(set.weight(5).is_zero());
    assert_eq!(set.len(), 2);
    set.accumulate(&zset(&[(1, 3), (7, 1)]));
    assert_eq!(listing(&set), vec![(7, 1), (9, 4)]);
    let change = zset(&[(9, 1)]).change_from(&set);
    assert_eq!(listing(&change), vec![(7, -1), (9, -3)]);
    let mut large = zset(&[(2, 1)]);
    large.assign(1, vast());
    assert_eq!(large.total_weight(), None);
}
