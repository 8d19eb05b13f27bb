//! The overlay of one vertex of a search corpus: what the prepared rows say about
//! it, kept apart from its committed contents until both are known.

use vstd::prelude::*;
use crate::beacon::{cancelled, scratch_plan, scratched, BeaconError, Control, Meter, SearchLimits};
use crate::graph::{clone_labels, has_label, labels_sorted, vertex_after, DeltaRow, VertexView};
use crate::ids::{CanonicalScalar, LabelId, PropertyKeyId, VId};
use crate::idset::IdMap;
use crate::plan::{failure, go, lemma_obeys_nothing, obeys, Plan};
use crate::props::{clone_props, lemma_props_at, props_map, props_sorted};
use crate::session::{Host, Session};
use crate::vertex_map::row_vertex;

verus! {

/// Labels and properties of a vertex.
#[derive(Debug)]
pub struct Contents {
    pub labels: Vec<LabelId>,
    pub props: Vec<(PropertyKeyId, CanonicalScalar)>,
}

/// What contents hold.
pub struct ContentsView {
    pub labels: Seq<LabelId>,
    pub props: Seq<(PropertyKeyId, CanonicalScalar)>,
}

impl Contents {
    pub open spec fn view(&self) -> ContentsView {
        ContentsView { labels: self.labels@, props: self.props@ }
    }
}

pub open spec fn contents_view(contents: Option<Contents>) -> Option<ContentsView> {
    match contents {
        Some(found) => Some(found@),
        None => None,
    }
}

/// Contents are kept in canonical order.
pub open spec fn contents_wf(contents: Option<ContentsView>) -> bool {
    match contents {
        Some(found) => labels_sorted(found.labels) && props_sorted(found.props),
        None => true,
    }
}

/// What the prepared rows say about one vertex, over its committed contents.
pub struct Overlay {
    pub basis: Option<Contents>,
    pub created: Option<Contents>,
    pub deleted: bool,
    pub labels: IdMap<bool>,
    pub properties: IdMap<Option<CanonicalScalar>>,
}

/// What an overlay says.
#[verifier::ext_equal]
pub struct OverlayView {
    pub basis: Option<ContentsView>,
    pub created: Option<ContentsView>,
    pub deleted: bool,
    pub labels: Map<u128, bool>,
    pub properties: Map<u128, Option<CanonicalScalar>>,
}

/// Nothing is known yet.
pub open spec fn blank() -> OverlayView {
    OverlayView {
        basis: None,
        created: None,
        deleted: false,
        labels: Map::empty(),
        properties: Map::empty(),
    }
}

impl OverlayView {
    /// The contents that the overrides apply to.
    pub open spec fn contents(self) -> Option<ContentsView> {
        if self.deleted {
            None
        } else if self.created is Some {
            self.created
        } else {
            self.basis
        }
    }

    /// Whether the vertex carries a label.
    pub open spec fn has(self, label: LabelId) -> bool {
        match self.contents() {
            Some(found) => if self.labels.dom().contains(label.0 as u128) {
                self.labels[label.0 as u128]
            } else {
                found.labels.contains(label)
            },
            None => false,
        }
    }

    /// The value of a property.
    pub open spec fn value(self, key: PropertyKeyId) -> Option<CanonicalScalar> {
        match self.contents() {
            Some(found) => if self.properties.dom().contains(key.0 as u128) {
                self.properties[key.0 as u128]
            } else if props_map(found.props).dom().contains(key) {
                Some(props_map(found.props)[key])
            } else {
                None
            },
            None => None,
        }
    }

    /// The same overlay over other committed contents.
    pub open spec fn over(self, basis: Option<ContentsView>) -> OverlayView {
        OverlayView { basis, ..self }
    }

    pub open spec fn wf(self) -> bool {
        &&& contents_wf(self.basis)
        &&& contents_wf(self.created)
    }

    /// The overlay after one row about its vertex.
    pub open spec fn after(self, row: DeltaRow) -> OverlayView {
        match row {
            DeltaRow::CreateVertex { labels, props, .. } => OverlayView {
                created: Some(ContentsView { labels: labels@, props: props@ }),
                deleted: false,
                labels: Map::empty(),
                properties: Map::empty(),
                ..self
            },
            DeltaRow::DeleteVertex { .. } => OverlayView {
                created: None,
                deleted: true,
                labels: Map::empty(),
                properties: Map::empty(),
                ..self
            },
            DeltaRow::LabelMembership { label, after, .. } => if self.deleted {
                self
            } else {
                OverlayView { labels: self.labels.insert(label.0 as u128, after), ..self }
            },
            DeltaRow::Property { property, after, .. } => if self.deleted {
                self
            } else {
                OverlayView {
                    properties: self.properties.insert(property.0 as u128, after),
                    ..self
                }
            },
            _ => self,
        }
    }

    /// Whether one row about the vertex overrides something for the first time.
    pub open spec fn overrides_anew(self, row: DeltaRow) -> bool {
        match row {
            DeltaRow::LabelMembership { label, .. } => !self.deleted
                && !self.labels.dom().contains(label.0 as u128),
            DeltaRow::Property { property, .. } => !self.deleted
                && !self.properties.dom().contains(property.0 as u128),
            _ => false,
        }
    }
}

/// The overlay shows exactly this vertex.
pub open spec fn shows(overlay: OverlayView, vertex: Option<VertexView>) -> bool {
    match vertex {
        Some(seen) => {
            &&& overlay.contents() is Some
            &&& forall|label: LabelId| #[trigger]
                seen.labels.contains(label) == overlay.has(label)
            &&& forall|key: PropertyKeyId| #[trigger]
                seen.props.dom().contains(key) == (overlay.value(key) is Some)
            &&& forall|key: PropertyKeyId| #[trigger]
                seen.props.dom().contains(key) ==> overlay.value(key) == Some(seen.props[key])
        },
        None => overlay.contents() is None,
    }
}

/// A row moves the overlay as it moves the vertex.
pub proof fn lemma_shows_after(
    overlay: OverlayView,
    vertex: Option<VertexView>,
    vid: VId,
    row: DeltaRow,
)
    requires
        overlay.wf(),
        row.wf(),
        row_vertex(row) == Some(vid),
        shows(overlay, vertex),
    ensures
        shows(overlay.after(row), vertex_after(vertex, vid, row)),
        overlay.after(row).wf(),
{
    let next = overlay.after(row);
    let moved = vertex_after(vertex, vid, row);
    match row {
        DeltaRow::CreateVertex { labels, props, .. } => {
            let seen = moved->0;
            assert forall|label: LabelId| #[trigger]
                seen.labels.contains(label) == next.has(label) by {
                assert(labels@.to_set().contains(label) == labels@.contains(label));
            }
        },
        DeltaRow::LabelMembership { label, after, .. } => {
            if vertex is Some {
                let was = vertex->0;
                let seen = moved->0;
                assert forall|other: LabelId| #[trigger]
                    seen.labels.contains(other) == next.has(other) by {
                    assert(was.labels.contains(other) == overlay.has(other));
                }
                assert forall|key: PropertyKeyId| #[trigger]
                    seen.props.dom().contains(key) == (next.value(key) is Some) by {
                    assert(was.props.dom().contains(key) == (overlay.value(key) is Some));
                    assert(next.value(key) == overlay.value(key));
                }
                assert forall|key: PropertyKeyId| #[trigger]
                    seen.props.dom().contains(key) implies next.value(key) == Some(
                    seen.props[key],
                ) by {
                    assert(was.props.dom().contains(key));
                    assert(next.value(key) == overlay.value(key));
                }
            }
        },
        DeltaRow::Property { property, after, .. } => {
            if vertex is Some {
                let was = vertex->0;
                let seen = moved->0;
                assert forall|other: LabelId| #[trigger]
                    seen.labels.contains(other) == next.has(other) by {
                    assert(was.labels.contains(other) == overlay.has(other));
                    assert(next.has(other) == overlay.has(other));
                }
                assert forall|key: PropertyKeyId| #[trigger]
                    seen.props.dom().contains(key) == (next.value(key) is Some) by {
                    assert(was.props.dom().contains(key) == (overlay.value(key) is Some));
                    if key != property {
                        assert(next.value(key) == overlay.value(key));
                    }
                }
                assert forall|key: PropertyKeyId| #[trigger]
                    seen.props.dom().contains(key) implies next.value(key) == Some(
                    seen.props[key],
                ) by {
                    if key != property {
                        assert(was.props.dom().contains(key));
                        assert(next.value(key) == overlay.value(key));
                    }
                }
            }
        },
        _ => {},
    }
}

/// Committed contents alone show the committed vertex.
pub proof fn lemma_shows_basis(contents: ContentsView, vertex: VertexView)
    requires
        contents.labels.to_set() == vertex.labels,
        props_map(contents.props) == vertex.props,
    ensures
        shows(blank().over(Some(contents)), Some(vertex)),
{
    let overlay = blank().over(Some(contents));
    assert forall|label: LabelId| #[trigger] vertex.labels.contains(label) == overlay.has(label) by {
        assert(contents.labels.to_set().contains(label) == contents.labels.contains(label));
    }
}

impl Overlay {
    pub open spec fn view(&self) -> OverlayView {
        OverlayView {
            basis: contents_view(self.basis),
            created: contents_view(self.created),
            deleted: self.deleted,
            labels: self.labels@,
            properties: self.properties@,
        }
    }

    pub open spec fn wf(&self) -> bool {
        &&& self@.wf()
        &&& self.labels.wf()
        &&& self.properties.wf()
    }

    pub fn new() -> (overlay: Overlay)
        ensures
            overlay.wf(),
            overlay@ == blank(),
    {
        Overlay {
            basis: None,
            created: None,
            deleted: false,
            labels: IdMap::new(),
            properties: IdMap::new(),
        }
    }

    /// The contents that the overrides apply to.
    pub fn contents(&self) -> (contents: Option<&Contents>)
        ensures
            match contents {
                Some(found) => self@.contents() == Some(found@),
                None => self@.contents() is None,
            },
    {
        if self.deleted {
            None
        } else {
            match &self.created {
                Some(created) => Some(created),
                None => match &self.basis {
                    Some(basis) => Some(basis),
                    None => None,
                },
            }
        }
    }

    /// Whether the vertex carries a label.
    pub fn carries(&self, label: LabelId) -> (carried: bool)
        requires
            self.wf(),
        ensures
            carried == self@.has(label),
    {
        match self.contents() {
            Some(found) => match self.labels.get(label.0 as u128) {
                Some(present) => *present,
                None => has_label(&found.labels, label),
            },
            None => false,
        }
    }

    /// The value of a property.
    pub fn property(&self, key: PropertyKeyId) -> (value: Option<CanonicalScalar>)
        requires
            self.wf(),
        ensures
            value == self@.value(key),
    {
        match self.contents() {
            Some(found) => match self.properties.get(key.0 as u128) {
                Some(after) => *after,
                None => find_property(&found.props, key),
            },
            None => None,
        }
    }

    /// Apply one row about this vertex. A first override takes a scratch entry; a
    /// refused one leaves the overlay as it was.
    pub fn apply<H: Host>(
        &mut self,
        row: &DeltaRow,
        control: &mut Control,
        session: &mut Session<H>,
    ) -> (applied: Result<(), BeaconError>)
        requires
            old(self).wf(),
            row.wf(),
            row_vertex(*row) is Some,
            old(control).wf(),
            old(control).interrupted is None,
        ensures
            final(self).wf(),
            final(control).wf(),
            final(control).limits == old(control).limits,
            final(session).metered() == old(session).metered(),
            obeys(
                old(session).log(),
                final(session).log(),
                apply_plan(old(self)@, *row, old(control).meter, old(control).limits),
                cancelled(),
                failure(applied),
            ),
            final(control).interrupted == crate::session::refused(
                old(session).log(),
                final(session).log(),
            ),
            applied is Ok ==> final(self)@ == old(self)@.after(*row) && final(control).meter
                == apply_meter(old(self)@, *row, old(control).meter),
            applied is Err ==> *final(self) == *old(self),
    {
        proof {
            lemma_obeys_nothing(session.log(), cancelled());
        }
        match row {
            DeltaRow::CreateVertex { labels, props, .. } => {
                self.created = Some(
                    Contents { labels: clone_labels(labels), props: clone_props(props) },
                );
                self.deleted = false;
                self.labels = IdMap::new();
                self.properties = IdMap::new();
            },
            DeltaRow::DeleteVertex { .. } => {
                self.deleted = true;
                self.created = None;
                self.labels = IdMap::new();
                self.properties = IdMap::new();
            },
            DeltaRow::LabelMembership { label, after, .. } => {
                if !self.deleted {
                    if self.labels.get(label.0 as u128).is_none() {
                        if let Err(error) = control.scratch(session) {
                            return Err(error);
                        }
                    }
                    self.labels.insert(label.0 as u128, *after);
                }
            },
            DeltaRow::Property { property, after, .. } => {
                if !self.deleted {
                    if self.properties.get(property.0 as u128).is_none() {
                        if let Err(error) = control.scratch(session) {
                            return Err(error);
                        }
                    }
                    self.properties.insert(property.0 as u128, *after);
                }
            },
            _ => {},
        }
        assert(self@ =~= old(self)@.after(*row));
        Ok(())
    }
}

/// What applying a row asks.
pub open spec fn apply_plan(
    overlay: OverlayView,
    row: DeltaRow,
    meter: Meter,
    limits: SearchLimits,
) -> Plan<BeaconError> {
    if overlay.overrides_anew(row) {
        scratch_plan(meter, limits)
    } else {
        go()
    }
}

/// The meter after applying a row.
pub open spec fn apply_meter(overlay: OverlayView, row: DeltaRow, meter: Meter) -> Meter {
    if overlay.overrides_anew(row) {
        scratched(meter)
    } else {
        meter
    }
}

/// Look a property up.
fn find_property(props: &Vec<(PropertyKeyId, CanonicalScalar)>, key: PropertyKeyId) -> (value:
    Option<CanonicalScalar>)
    requires
        props_sorted(props@),
    ensures
        value == (if props_map(props@).dom().contains(key) {
            Some(props_map(props@)[key])
        } else {
            None
        }),
{
    let mut i: usize = 0;
    while i < props.len()
        invariant
            i <= props.len(),
            props_sorted(props@),
            forall|k: int| 0 <= k < i ==> (#[trigger] props@[k]).0 != key,
        decreases props.len() - i,
    {
        if props[i].0 == key {
            proof {
                lemma_props_at(props@, i as int);
            }
            return Some(props[i].1);
        }
        i += 1;
    }
    None
}

} // verus!
