//! A search over the transaction's pinned snapshot and its prepared rows: entry
//! checks, the corpus as a whole, and the selection of its documents.

use vstd::prelude::*;
use crate::batch::intents;
use crate::beacon::{
    cancelled, charge_plan, charged, BeaconError, Control, InvalidQuery, Meter, ReadError,
    SearchLimits, SearchResource,
};
use crate::beacon_corpus::{
    intents_observed, lemma_candidate, lemma_overlaid, lemma_walked_action, lemma_walked_failed,
    lemma_walked_nothing, lemma_walked_part, lemma_walked_ran, lemma_walked_then,
    lemma_winners_prefix, nets, overlay_at, prepared_script, search_frame, staged_script, walk_of,
    walked, winner_part, winners_script, Action, Corpus, Incidence,
};
use crate::beacon_overlay::{blank, lemma_shows_basis, shows, ContentsView, Overlay, OverlayView};
use crate::database::{vertex_in, vertices_wf, Database};
use crate::errors::WriteTxnError;
use crate::graph::{vertex_after_rows, DeltaRow, VertexRow, VertexView};
use crate::ids::{CommitSeq, ElementId, LabelId, PropertyKeyId, VId};
use crate::idset::IdMap;
use crate::plan::{
    ask, demand, failure, go, lemma_obeys_and, lemma_obeys_failed, lemma_obeys_nothing,
    lemma_obeys_stop, obeys, Plan,
};
use crate::read_laws::{law_reads_are_published, published};
use crate::script::{lemma_prefix_concat, lemma_prefix_transitive};
use crate::session::{refused, Event, Host, Request, Session};
use crate::txn::{ownership_refusal, same_workspace, WriteTxn};

verus! {

/// The rows list exactly the vertices of a graph, by identity.
pub open spec fn lists_vertices(
    rows: Seq<VertexRow>,
    graph: spec_fn(VId) -> Option<VertexView>,
) -> bool {
    &&& forall|i: int|
        0 <= i < rows.len() ==> (#[trigger] rows[i]).wf() && graph(rows[i].vid) == Some(rows[i]@)
    &&& forall|i: int, j: int|
        0 <= i < j < rows.len() ==> (#[trigger] rows[i]).vid.0 < (#[trigger] rows[j]).vid.0
    &&& forall|vid: VId| #[trigger]
        graph(vid) is Some ==> exists|i: int| 0 <= i < rows.len() && (#[trigger] rows[i]).vid == vid
}

/// The committed graph that a transaction is pinned to.
pub open spec fn pinned_vertices(txn: WriteTxn, database: Database) -> spec_fn(VId) -> Option<
    VertexView,
> {
    |vid: VId| database.vertex_at_spec(vid, txn.basis)
}

pub proof fn lemma_map_lists(
    vertices: IdMap<VertexRow>,
    graph: spec_fn(VId) -> Option<VertexView>,
)
    requires
        vertices_wf(vertices),
        forall|vid: VId| #[trigger] vertex_in(vertices, vid) == graph(vid),
    ensures
        lists_vertices(vertices.value_seq(), graph),
{
    let rows = vertices.value_seq();
    let keys = vertices.key_seq();
    assert forall|i: int| 0 <= i < rows.len() implies (#[trigger] rows[i]).wf() && graph(
        rows[i].vid,
    ) == Some(rows[i]@) && rows[i].vid.0 == keys[i] by {
        vertices.lemma_position(i);
        assert(vertices@.dom().contains(keys[i]));
        assert(vertex_in(vertices, rows[i].vid) == graph(rows[i].vid));
    }
    assert forall|i: int, j: int| 0 <= i < j < rows.len() implies (#[trigger] rows[i]).vid.0 < (
    #[trigger] rows[j]).vid.0 by {
        assert(rows[i].vid.0 == keys[i]);
        assert(rows[j].vid.0 == keys[j]);
    }
    assert forall|vid: VId| #[trigger] graph(vid) is Some implies exists|i: int|
        0 <= i < rows.len() && (#[trigger] rows[i]).vid == vid by {
        assert(vertex_in(vertices, vid) == graph(vid));
        assert(vertices@.dom().contains(vid.0));
        let i = keys.index_of(vid.0);
        assert(keys[i] == vid.0);
        assert(rows[i].vid.0 == keys[i]);
        assert(rows[i].vid == vid);
    }
}

/// The whole reading of a corpus: the label witness, the staged intents, the
/// prepared rows, then the committed vertices.
pub open spec fn corpus_script(
    txn: WriteTxn,
    label: Option<LabelId>,
    winners: Seq<VertexRow>,
) -> Seq<Action> {
    let rows = intents(txn.staged@);
    label_script(label) + staged_script(rows, rows.len() as int) + delta_script(txn)
        + winners_script(winners, winners.len() as int)
}

/// What the prepared rows cost, if there are any.
pub open spec fn delta_script(txn: WriteTxn) -> Seq<Action> {
    match txn.prepared {
        Some(write) => prepared_script(
            write.template.coordinates@,
            write.template.coordinates@.len() as int,
        ),
        None => Seq::empty(),
    }
}

/// A scan over one label keeps its insertion witness.
pub open spec fn label_script(label: Option<LabelId>) -> Seq<Action> {
    match label {
        Some(scanned) => seq![Action::Scan(scanned)],
        None => Seq::empty(),
    }
}

/// What reading a corpus does, whatever the host answers. Witnesses made before a
/// failure stay.
pub open spec fn reads_corpus(
    before: WriteTxn,
    after: WriteTxn,
    database: Database,
    label: Option<LabelId>,
    winners: Seq<VertexRow>,
    corpus: Corpus,
    corpus_after: Corpus,
    log: Seq<Event>,
    log_after: Seq<Event>,
    failed: Option<BeaconError>,
) -> bool {
    &&& lists_vertices(winners, pinned_vertices(before, database))
    &&& walked(
        corpus.control.limits,
        walk_of(before, corpus),
        corpus_script(before, label, winners),
        after,
        corpus_after,
        log,
        log_after,
        failed,
    )
    &&& corpus_after.control.interrupted == refused(log, log_after)
    &&& same_workspace(before, after)
    &&& after.match_expansions == before.match_expansions
    &&& after.scanned_edges == before.scanned_edges
    &&& before.read_set@.subset_of(after.read_set@)
    &&& failed is None ==> intents_observed(
        after,
        intents(before.staged@),
        intents(before.staged@).len() as int,
    )
    &&& failed is None ==> forall|vid: VId| #[trigger]
        database.vertex_at_spec(vid, before.basis) is Some ==> after.read_set@.contains(
            ElementId::Vertex(vid),
        )
    &&& after.scanned_vertices == (before.scanned_vertices || label is None)
    &&& failed is None ==> forall|vid: VId| #[trigger]
        shows(overlay_at(corpus_after.rows, vid), before.overlay_vertex(database, vid))
}

impl WriteTxn {
    /// Put the committed vertices under the overlays.
    fn walk_winners<H: Host>(
        &mut self,
        corpus: &mut Corpus,
        vertices: &IdMap<VertexRow>,
        session: &mut Session<H>,
        Ghost(rows): Ghost<Seq<DeltaRow>>,
    ) -> (done: Result<(), BeaconError>)
        requires
            old(self).wf(),
            old(corpus).wf(),
            old(corpus).control.interrupted is None,
            vertices_wf(*vertices),
            forall|vid: VId| #[trigger] nets(overlay_at(old(corpus).rows, vid), vid, rows),
        ensures
            final(self).wf(),
            final(corpus).wf(),
            final(corpus).control.limits == old(corpus).control.limits,
            final(corpus).control.interrupted == refused(
                old(session).log(),
                final(session).log(),
            ),
            final(session).metered() == old(session).metered(),
            search_frame(*old(self), *final(self)),
            old(self).read_set@.subset_of(final(self).read_set@),
            done is Ok ==> forall|vid: VId| #[trigger]
                vertex_in(*vertices, vid) is Some ==> final(self).read_set@.contains(
                    ElementId::Vertex(vid),
                ),
            walked(
                old(corpus).control.limits,
                walk_of(*old(self), *old(corpus)),
                winners_script(vertices.value_seq(), vertices.value_seq().len() as int),
                *final(self),
                *final(corpus),
                old(session).log(),
                final(session).log(),
                failure(done),
            ),
            done is Ok ==> forall|vid: VId| #[trigger]
                shows(
                    overlay_at(final(corpus).rows, vid),
                    vertex_after_rows(vertex_in(*vertices, vid), vid, rows),
                ),
    {
        let ghost origin = *self;
        let ghost limits = corpus.control.limits;
        let ghost start = session.log();
        let ghost walk = walk_of(*self, *corpus);
        let ghost winners = vertices.value_seq();
        let ghost keys = vertices.key_seq();
        let ghost full = winners_script(winners, winners.len() as int);
        proof {
            lemma_walked_nothing(limits, *self, *corpus, start);
            lemma_walked_ran(limits, walk, Seq::empty(), *self, *corpus, start, start);
        }
        let mut i: usize = 0;
        while i < vertices.len()
            invariant
                i <= keys.len(),
                keys == vertices.key_seq(),
                winners == vertices.value_seq(),
                keys.len() == winners.len(),
                vertices_wf(*vertices),
                origin == *old(self),
                limits == old(corpus).control.limits,
                corpus.control.limits == limits,
                corpus.control.interrupted is None,
                start == old(session).log(),
                walk == walk_of(*old(self), *old(corpus)),
                full == winners_script(winners, winners.len() as int),
                session.metered() == old(session).metered(),
                self.wf(),
                corpus.wf(),
                search_frame(origin, *self),
                origin.read_set@.subset_of(self.read_set@),
                forall|k: int|
                    0 <= k < i ==> self.read_set@.contains(
                        ElementId::Vertex(VId(#[trigger] keys[k])),
                    ),
                walked(
                    limits,
                    walk,
                    winners_script(winners, i as int),
                    *self,
                    *corpus,
                    start,
                    session.log(),
                    None,
                ),
                forall|vid: VId| #[trigger]
                    based(overlay_at(corpus.rows, vid), vid, rows, *vertices, keys.take(i as int)),
            decreases keys.len() - i,
        {
            let ghost head = winners_script(winners, i as int);
            let ghost part = winner_part(winners[i as int]);
            let row = vertices.value_at(i);
            let ghost key = keys[i as int];
            let ghost rows0 = corpus.rows;
            proof {
                vertices.lemma_position(i as int);
                assert(row.vid.0 == key);
                lemma_winners_prefix(winners, i + 1, winners.len() as int);
                assert(winners_script(winners, i + 1) == head + part);
                lemma_walked_part(limits, walk, head, part, *self, *corpus, start, session.log());
            }
            let vid = row.vid;
            let ghost txn0 = *self;
            let ghost corpus0 = *corpus;
            let ghost log0 = session.log();
            let paid = self.pay_search(corpus, 1, session);
            proof {
                lemma_walked_action(
                    limits, walk, head, part, 0, full, txn0, *self, corpus0, *corpus, start, log0,
                    session.log(), failure(paid),
                );
                lemma_walked_ran(limits, walk, head, txn0, corpus0, start, log0);
                crate::session::lemma_ran_compose(start, log0, session.log());
            }
            if let Err(error) = paid {
                return Err(error);
            }
            let ghost txn1 = *self;
            let ghost corpus1 = *corpus;
            let ghost log1 = session.log();
            let observed = self.observe_searched(corpus, ElementId::Vertex(vid), session);
            proof {
                lemma_walked_action(
                    limits, walk, head, part, 1, full, txn1, *self, corpus1, *corpus, start, log1,
                    session.log(), failure(observed),
                );
                crate::session::lemma_ran_compose(start, log1, session.log());
            }
            if let Err(error) = observed {
                return Err(error);
            }
            let ghost txn2 = *self;
            let ghost corpus2 = *corpus;
            let ghost log2 = session.log();
            let admitted = self.admit_candidate(corpus, vid, session);
            proof {
                lemma_walked_action(
                    limits, walk, head, part, 2, full, txn2, *self, corpus2, *corpus, start, log2,
                    session.log(), failure(admitted),
                );
                crate::session::lemma_ran_compose(start, log2, session.log());
            }
            if let Err(error) = admitted {
                return Err(error);
            }
            proof {
                lemma_candidate(walk_of(txn2, corpus2), *corpus, vid, corpus2);
            }
            let ghost txn3 = *self;
            let ghost corpus3 = *corpus;
            let ghost log3 = session.log();
            self.base_candidate(corpus, row, session);
            proof {
                lemma_walked_action(
                    limits, walk, head, part, 3, full, txn3, *self, corpus3, *corpus, start, log3,
                    session.log(), None,
                );
                let contents = ContentsView { labels: row.labels@, props: row.props@ };
                lemma_overlaid(
                    corpus3,
                    *corpus,
                    vid,
                    overlay_at(corpus3.rows, vid).over(Some(contents)),
                );
                let seen = keys.take(i as int);
                let next = keys.take(i + 1);
                assert(next =~= seen.push(key));
                assert(!seen.contains(key)) by {
                    if seen.contains(key) {
                        let k = seen.index_of(key);
                        assert(keys[k] == key);
                        assert(keys[k] < keys[i as int]);
                    }
                }
                assert forall|other: VId| #[trigger]
                    based(overlay_at(corpus.rows, other), other, rows, *vertices, next) by {
                    assert(based(overlay_at(rows0, other), other, rows, *vertices, seen));
                    assert(next.contains(other.0) == (seen.contains(other.0) || other.0 == key))
                        by {
                        if seen.contains(other.0) {
                            let k = seen.index_of(other.0);
                            assert(next[k] == other.0);
                        }
                        if next.contains(other.0) && other.0 != key {
                            let k = next.index_of(other.0);
                            assert(seen[k] == other.0);
                        }
                        assert(next[i as int] == key);
                    }
                    if other == vid {
                        lemma_shows_basis(contents, row@);
                        assert(overlay_at(rows0, vid) == overlay_at(corpus3.rows, vid));
                        assert(vertex_in(*vertices, vid) == Some(row@));
                    } else {
                        assert(other.0 != vid.0);
                    }
                }
            }
            i += 1;
        }
        proof {
            lemma_walked_ran(limits, walk, full, *self, *corpus, start, session.log());
            assert(keys.take(i as int) =~= keys);
            assert forall|vid: VId| #[trigger] vertex_in(*vertices, vid) is Some implies
                self.read_set@.contains(ElementId::Vertex(vid)) by {
                let k = keys.index_of(vid.0);
                assert(keys[k] == vid.0);
                assert(VId(keys[k]) == vid);
            }
            assert forall|vid: VId| #[trigger]
                shows(
                    overlay_at(corpus.rows, vid),
                    vertex_after_rows(vertex_in(*vertices, vid), vid, rows),
                ) by {
                assert(based(overlay_at(corpus.rows, vid), vid, rows, *vertices, keys));
                if !keys.contains(vid.0) {
                    assert(shows(blank().over(None), None));
                    assert(overlay_at(corpus.rows, vid).over(None) == overlay_at(
                        corpus.rows,
                        vid,
                    ));
                }
            }
        }
        Ok(())
    }
}

impl WriteTxn {
    /// Read the prepared rows, if there are any.
    fn walk_delta<H: Host>(&mut self, corpus: &mut Corpus, session: &mut Session<H>) -> (done:
        Result<(), BeaconError>)
        requires
            old(self).wf(),
            old(corpus).wf(),
            old(corpus).control.interrupted is None,
            old(corpus).rows@ =~= Map::<u128, Overlay>::empty(),
        ensures
            final(self).wf(),
            final(corpus).wf(),
            final(corpus).control.limits == old(corpus).control.limits,
            final(corpus).control.interrupted == refused(
                old(session).log(),
                final(session).log(),
            ),
            final(session).metered() == old(session).metered(),
            search_frame(*old(self), *final(self)),
            old(self).read_set@.subset_of(final(self).read_set@),
            walked(
                old(corpus).control.limits,
                walk_of(*old(self), *old(corpus)),
                delta_script(*old(self)),
                *final(self),
                *final(corpus),
                old(session).log(),
                final(session).log(),
                failure(done),
            ),
            done is Ok ==> forall|vid: VId| #[trigger]
                nets(overlay_at(final(corpus).rows, vid), vid, old(self).prepared_rows()),
    {
        let ghost limits = corpus.control.limits;
        let ghost log = session.log();
        proof {
            assert forall|vid: VId| #[trigger] nets(
                overlay_at(corpus.rows, vid),
                vid,
                Seq::<DeltaRow>::empty(),
            ) by {
                lemma_blank_nets(vid);
            }
            crate::session::lemma_ran_nothing(log);
        }
        let prepared = self.prepared.take();
        let done = match &prepared {
            Some(write) => self.walk_prepared(corpus, &write.template, session),
            None => {
                proof {
                    lemma_walked_nothing(limits, *self, *corpus, log);
                }
                Ok(())
            },
        };
        self.prepared = prepared;
        done
    }

    /// Read the whole corpus of a search. The entire corpus is observed, not only
    /// later hits. A scan over one label keeps a label witness; any other scan
    /// keeps a witness on all vertices.
    #[verifier::rlimit(40)]
    pub fn read_corpus<H: Host>(
        &mut self,
        database: &Database,
        label: Option<LabelId>,
        corpus: &mut Corpus,
        session: &mut Session<H>,
    ) -> (done: Result<(), BeaconError>)
        requires
            old(self).wf(),
            database.wf(),
            old(self).read_refusal(*database) is None,
            old(corpus).wf(),
            old(corpus).control.interrupted is None,
            old(corpus).rows@ =~= Map::<u128, Overlay>::empty(),
        ensures
            final(self).wf(),
            final(corpus).wf(),
            final(corpus).control.limits == old(corpus).control.limits,
            final(session).metered() == old(session).metered(),
            exists|winners: Seq<VertexRow>| #[trigger]
                reads_corpus(
                    *old(self),
                    *final(self),
                    *database,
                    label,
                    winners,
                    *old(corpus),
                    *final(corpus),
                    old(session).log(),
                    final(session).log(),
                    failure(done),
                ),
    {
        let ghost origin = *self;
        let ghost corpus0 = *corpus;
        let ghost limits = corpus.control.limits;
        let ghost start = session.log();
        let ghost walk = walk_of(*self, *corpus);
        let vertices = match database.vertex_map_at(self.basis) {
            Ok(vertices) => vertices,
            Err(_) => {
                proof {
                    assert(false);
                }
                return Ok(());
            },
        };
        let ghost winners = vertices.value_seq();
        let ghost full = corpus_script(origin, label, winners);
        let ghost rows = intents(origin.staged@);
        let ghost part1 = label_script(label);
        let ghost part2 = staged_script(rows, rows.len() as int);
        let ghost part3 = delta_script(origin);
        let ghost part4 = winners_script(winners, winners.len() as int);
        proof {
            lemma_map_lists(vertices, pinned_vertices(origin, *database));
            lemma_prefix_concat(part1 + part2 + part3, part4);
            lemma_prefix_concat(part1 + part2, part3);
            lemma_prefix_transitive(part1 + part2, part1 + part2 + part3, full);
            lemma_prefix_concat(part1, part2);
            lemma_prefix_transitive(part1, part1 + part2, full);
            lemma_walked_nothing(limits, *self, *corpus, start);
            lemma_walked_ran(limits, walk, Seq::empty(), *self, *corpus, start, start);
            lemma_walked_part(limits, walk, Seq::empty(), part1, *self, *corpus, start, start);
            assert(Seq::<Action>::empty() + part1 =~= part1);
            assert(Seq::<Action>::empty() + part1.take(0) =~= Seq::<Action>::empty());
        }
        if let Some(scanned) = label {
            let done = self.scan_label(corpus, scanned, session);
            proof {
                lemma_walked_action(
                    limits, walk, Seq::empty(), part1, 0, full, origin, *self, corpus0, *corpus,
                    start, start, session.log(), failure(done),
                );
            }
            if let Err(error) = done {
                proof {
                    assert(reads_corpus(
                        origin, *self, *database, label, winners, corpus0, *corpus, start,
                        session.log(), Some(error),
                    ));
                }
                return Err(error);
            }
        } else {
            self.scanned_vertices = true;
        }
        let ghost txn1 = *self;
        let ghost corpus1 = *corpus;
        let ghost log1 = session.log();
        proof {
            assert(walked(limits, walk, part1, txn1, corpus1, start, log1, None));
            lemma_walked_ran(limits, walk, part1, txn1, corpus1, start, log1);
        }
        let done = self.walk_staged(corpus, session);
        proof {
            lemma_walked_then(
                limits, walk, part1, txn1, corpus1, part2, *self, *corpus, start, log1,
                session.log(), failure(done),
            );
            crate::session::lemma_ran_compose(start, log1, session.log());
        }
        if let Err(error) = done {
            proof {
                lemma_walked_failed(
                    limits, walk, part1 + part2, full, *self, *corpus, start, session.log(),
                    Some(error),
                );
                assert(reads_corpus(
                    origin, *self, *database, label, winners, corpus0, *corpus, start,
                    session.log(), Some(error),
                ));
            }
            return Err(error);
        }
        let ghost txn2 = *self;
        let ghost corpus2 = *corpus;
        let ghost log2 = session.log();
        let ghost delta = origin.prepared_rows();
        proof {
            lemma_walked_ran(limits, walk, part1 + part2, txn2, corpus2, start, log2);
            assert(txn2.prepared == origin.prepared);
        }
        let done = self.walk_delta(corpus, session);
        proof {
            lemma_walked_then(
                limits, walk, part1 + part2, txn2, corpus2, part3, *self, *corpus, start, log2,
                session.log(), failure(done),
            );
            crate::session::lemma_ran_compose(start, log2, session.log());
        }
        if let Err(error) = done {
            proof {
                lemma_walked_failed(
                    limits, walk, part1 + part2 + part3, full, *self, *corpus, start,
                    session.log(), Some(error),
                );
                assert(reads_corpus(
                    origin, *self, *database, label, winners, corpus0, *corpus, start,
                    session.log(), Some(error),
                ));
            }
            return Err(error);
        }
        let ghost txn3 = *self;
        let ghost corpus3 = *corpus;
        let ghost log3 = session.log();
        proof {
            lemma_walked_ran(limits, walk, part1 + part2 + part3, txn3, corpus3, start, log3);
            assert(delta == txn2.prepared_rows());
            assert(done is Ok);
            assert forall|vid: VId| #[trigger] nets(overlay_at(corpus.rows, vid), vid, delta) by {
                assert(nets(overlay_at(corpus.rows, vid), vid, txn2.prepared_rows()));
            }
        }
        let done = self.walk_winners(corpus, &vertices, session, Ghost(delta));
        proof {
            lemma_walked_then(
                limits, walk, part1 + part2 + part3, txn3, corpus3, part4, *self, *corpus, start,
                log3, session.log(), failure(done),
            );
            crate::session::lemma_ran_compose(start, log3, session.log());
            if done is Ok {
                assert forall|vid: VId| #[trigger] database.vertex_at_spec(vid, origin.basis)
                    is Some implies self.read_set@.contains(ElementId::Vertex(vid)) by {
                    assert(vertex_in(vertices, vid) == database.vertex_at_spec(vid, origin.basis));
                }
                assert forall|vid: VId| #[trigger] shows(
                    overlay_at(corpus.rows, vid),
                    origin.overlay_vertex(*database, vid),
                ) by {
                    assert(shows(
                        overlay_at(corpus.rows, vid),
                        vertex_after_rows(vertex_in(vertices, vid), vid, delta),
                    ));
                }
            }
            assert(reads_corpus(
                origin, *self, *database, label, winners, corpus0, *corpus, start, session.log(),
                failure(done),
            ));
        }
        done
    }

    /// The refusal a search meets before it reads anything: owner and lifecycle,
    /// then a query for another snapshot, then the retained history.
    pub open spec fn search_refusal(&self, database: Database, as_of: Option<CommitSeq>) -> Option<
        ReadError,
    > {
        match ownership_refusal(*self, database) {
            Some(error) => Some(ReadError::Read(error)),
            None => if as_of is Some && as_of != Some(self.basis) {
                Some(ReadError::Index(BeaconError::InvalidQuery(InvalidQuery::ForeignBasis)))
            } else {
                match database.history_refusal(self.basis) {
                    Some(error) => Some(ReadError::Read(error)),
                    None => None,
                }
            },
        }
    }

    /// Open a search: cancellation, entry checks, and the first unit of work.
    pub fn begin_search<H: Host>(
        &self,
        database: &Database,
        as_of: Option<CommitSeq>,
        max_work_units: u64,
        limits: SearchLimits,
        session: &mut Session<H>,
    ) -> (opened: Result<Corpus, ReadError>)
        requires
            database.wf(),
        ensures
            final(session).metered() == old(session).metered(),
            obeys(
                old(session).log(),
                final(session).log(),
                opening_plan(*self, *database, as_of, max_work_units),
                search_interrupted(),
                failure(opened),
            ),
            opened matches Ok(corpus) ==> {
                &&& corpus.wf()
                &&& corpus.rows@ =~= Map::<u128, Overlay>::empty()
                &&& corpus.changes@ =~= Map::<u128, Option<Incidence>>::empty()
                &&& corpus.emitted@.len() == 0
                &&& corpus.control.limits == limits
                &&& corpus.control.interrupted is None
                &&& corpus.control.meter == (Meter {
                    remaining: (max_work_units - 1) as u64,
                    scratch: 0,
                    expansion: 0,
                })
                &&& self.read_refusal(*database) is None
            },
    {
        let ghost start = session.log();
        let ghost refusal = self.search_refusal(*database, as_of);
        let ghost first = ask::<ReadError>(seq![Request::PollQuery]);
        let ghost second = match refusal {
            Some(error) => crate::plan::stop(error),
            None => go(),
        };
        let ghost meter = Meter { remaining: max_work_units, scratch: 0, expansion: 0 };
        let ghost third = charge_plan(meter, 1).lift(indexed());
        let polled = session.poll_query();
        let ghost middle = session.log();
        proof {
            crate::plan::lemma_obeys_ask(
                start,
                middle,
                seq![Request::PollQuery],
                search_interrupted(),
            );
        }
        if let Err(error) = polled {
            proof {
                lemma_obeys_failed(
                    start, middle, first, second, search_interrupted(),
                    Some(ReadError::Interrupted(error)),
                );
                lemma_obeys_failed(
                    start, middle, first.and(second), third, search_interrupted(),
                    Some(ReadError::Interrupted(error)),
                );
            }
            return Err(ReadError::Interrupted(error));
        }
        let checked = self.check_search(database, as_of);
        proof {
            lemma_obeys_nothing(middle, search_interrupted());
            if refusal is Some {
                lemma_obeys_stop(middle, search_interrupted(), refusal->0);
            }
            lemma_obeys_and(
                start, middle, middle, first, second, search_interrupted(), refusal,
            );
        }
        if let Err(error) = checked {
            proof {
                lemma_obeys_failed(
                    start, middle, first.and(second), third, search_interrupted(), Some(error),
                );
            }
            return Err(error);
        }
        let mut corpus = Corpus::new(Control::new(max_work_units, limits));
        let paid = corpus.control.charge(1, session);
        let reported = corpus.control.settle(paid);
        proof {
            lemma_charge_lifted(middle, session.log(), charge_plan(meter, 1), failure(paid));
            lemma_obeys_and(
                start, middle, session.log(), first.and(second), third, search_interrupted(),
                failure(reported),
            );
        }
        match reported {
            Ok(()) => Ok(corpus),
            Err(error) => Err(error),
        }
    }

    fn check_search(&self, database: &Database, as_of: Option<CommitSeq>) -> (checked: Result<
        (),
        ReadError,
    >)
        requires
            database.wf(),
        ensures
            failure(checked) == self.search_refusal(*database, as_of),
    {
        if let Err(error) = self.ensure_database(database) {
            return Err(ReadError::Read(error));
        }
        if let Some(at) = as_of {
            if at != self.basis {
                return Err(
                    ReadError::Index(BeaconError::InvalidQuery(InvalidQuery::ForeignBasis)),
                );
            }
        }
        match database.delta_since(self.basis) {
            Ok(_) => Ok(()),
            Err(error) => Err(ReadError::Read(error)),
        }
    }
}

/// An interrupted search reports the cause.
pub open spec fn search_interrupted() -> spec_fn(WriteTxnError) -> ReadError {
    |error: WriteTxnError| ReadError::Interrupted(error)
}

/// A refusal by the index.
pub open spec fn indexed() -> spec_fn(BeaconError) -> ReadError {
    |error: BeaconError| ReadError::Index(error)
}

/// What opening a search asks.
pub open spec fn opening_plan(
    txn: WriteTxn,
    database: Database,
    as_of: Option<CommitSeq>,
    max_work_units: u64,
) -> Plan<ReadError> {
    ask::<ReadError>(seq![Request::PollQuery]).and(
        match txn.search_refusal(database, as_of) {
            Some(error) => crate::plan::stop(error),
            None => go(),
        },
    ).and(
        charge_plan(
            Meter { remaining: max_work_units, scratch: 0, expansion: 0 },
            1,
        ).lift(indexed()),
    )
}

/// A run of the allowance, as the search reports it.
proof fn lemma_charge_lifted(
    log: Seq<Event>,
    log_after: Seq<Event>,
    plan: Plan<BeaconError>,
    failed: Option<BeaconError>,
)
    requires
        obeys(log, log_after, plan, cancelled(), failed),
    ensures
        obeys(
            log,
            log_after,
            plan.lift(indexed()),
            search_interrupted(),
            match refused(log, log_after) {
                Some(error) => Some(ReadError::Interrupted(error)),
                None => match failed {
                    Some(error) => Some(ReadError::Index(error)),
                    None => None,
                },
            },
        ),
{
}

/// A blank overlay shows whatever lies under it.
proof fn lemma_blank_nets(vid: VId)
    ensures
        nets(blank(), vid, Seq::<DeltaRow>::empty()),
{
}

/// Whether a search over a label sees the vertex.
pub open spec fn selected(overlay: OverlayView, label: Option<LabelId>) -> bool {
    &&& overlay.contents() is Some
    &&& label matches Some(wanted) ==> overlay.has(wanted)
}

/// What selecting one candidate asks: one unit, one for each listed label, and
/// room for one more document.
pub open spec fn select_plan(
    meter: Meter,
    overlay: OverlayView,
    label: Option<LabelId>,
    documents: u64,
    limit: u64,
) -> Plan<BeaconError> {
    charge_plan(meter, 1).and(
        match overlay.contents() {
            None => go(),
            Some(found) => charge_plan(charged(meter, 1), found.labels.len() as u64).and(
                demand(
                    !selected(overlay, label) || documents != limit,
                    BeaconError::ResourceLimit { resource: SearchResource::StagedVertices, limit },
                ),
            ),
        },
    )
}

/// The meter after one candidate was decided.
pub open spec fn selected_meter(meter: Meter, overlay: OverlayView) -> Meter {
    match overlay.contents() {
        None => charged(meter, 1),
        Some(found) => charged(charged(meter, 1), found.labels.len() as u64),
    }
}

impl Corpus {
    /// Decide whether the candidate at a position becomes a document.
    pub fn select<H: Host>(
        &mut self,
        at: usize,
        label: Option<LabelId>,
        documents: u64,
        limit: u64,
        session: &mut Session<H>,
    ) -> (document: Result<Option<VId>, BeaconError>)
        requires
            old(self).wf(),
            old(self).control.interrupted is None,
            at < old(self).rows.key_seq().len(),
        ensures
            final(self).wf(),
            final(self).rows == old(self).rows,
            final(self).changes == old(self).changes,
            final(self).emitted == old(self).emitted,
            final(self).control.limits == old(self).control.limits,
            final(session).metered() == old(session).metered(),
            final(self).control.interrupted == refused(
                old(session).log(),
                final(session).log(),
            ),
            ({
                let vid = VId(old(self).rows.key_seq()[at as int]);
                let overlay = overlay_at(old(self).rows, vid);
                &&& obeys(
                    old(session).log(),
                    final(session).log(),
                    select_plan(old(self).control.meter, overlay, label, documents, limit),
                    cancelled(),
                    failure(document),
                )
                &&& document matches Ok(found) ==> found == (if selected(overlay, label) {
                    Some(vid)
                } else {
                    None
                }) && final(self).control.meter == selected_meter(
                    old(self).control.meter,
                    overlay,
                )
            }),
    {
        let ghost start = session.log();
        let ghost meter = self.control.meter;
        let key: u128 = self.rows.key_at(at);
        let vid = VId(key);
        let ghost overlay = overlay_at(self.rows, vid);
        let ghost unit = charge_plan(meter, 1);
        let ghost rest = match overlay.contents() {
            None => go(),
            Some(found) => charge_plan(charged(meter, 1), found.labels.len() as u64).and(
                demand(
                    !selected(overlay, label) || documents != limit,
                    BeaconError::ResourceLimit { resource: SearchResource::StagedVertices, limit },
                ),
            ),
        };
        proof {
            self.rows.lemma_position(at as int);
            assert(self.rows@.dom().contains(key));
        }
        let paid = self.control.charge(1, session);
        let ghost middle = session.log();
        if let Err(error) = paid {
            proof {
                lemma_obeys_failed(start, middle, unit, rest, cancelled(), Some(error));
            }
            return Err(error);
        }
        let row = self.rows.value_at(at);
        let listed: usize = match row.contents() {
            Some(found) => found.labels.len(),
            None => {
                proof {
                    lemma_obeys_nothing(middle, cancelled());
                    lemma_obeys_and(start, middle, middle, unit, rest, cancelled(), None);
                }
                return Ok(None);
            },
        };
        let carried = match label {
            Some(wanted) => row.carries(wanted),
            None => true,
        };
        let ghost labels = charge_plan(charged(meter, 1), listed as u64);
        let excess = BeaconError::ResourceLimit {
            resource: SearchResource::StagedVertices,
            limit,
        };
        let ghost room = demand(!selected(overlay, label) || documents != limit, excess);
        let paid = self.control.charge(listed as u64, session);
        let ghost listed_log = session.log();
        if let Err(error) = paid {
            proof {
                lemma_obeys_failed(middle, listed_log, labels, room, cancelled(), Some(error));
                lemma_obeys_and(start, middle, listed_log, unit, rest, cancelled(), Some(error));
            }
            return Err(error);
        }
        let full = carried && documents == limit;
        proof {
            lemma_obeys_nothing(listed_log, cancelled());
            lemma_obeys_stop(listed_log, cancelled(), excess);
            let outcome = if full {
                Some(excess)
            } else {
                None
            };
            lemma_obeys_and(middle, listed_log, listed_log, labels, room, cancelled(), outcome);
            lemma_obeys_and(start, middle, listed_log, unit, rest, cancelled(), outcome);
        }
        if full {
            return Err(excess);
        }
        if carried {
            Ok(Some(vid))
        } else {
            Ok(None)
        }
    }
}

/// A search inside a transaction sees the corpus that a search after its commit
/// sees: the same vertices, with the same labels and the same values.
pub proof fn law_staged_corpus_is_the_committed_corpus(
    txn: WriteTxn,
    before: Database,
    after: Database,
    fresh: WriteTxn,
    staged: Corpus,
    committed: Corpus,
)
    requires
        before.wf(),
        before.tip() < u64::MAX,
        txn.prepared is Some,
        txn.basis.0 == before.tip(),
        published(before, after, txn.prepared->0.template),
        fresh.prepared is None,
        fresh.basis.0 == before.tip() + 1,
        forall|vid: VId| #[trigger]
            shows(overlay_at(staged.rows, vid), txn.overlay_vertex(before, vid)),
        forall|vid: VId| #[trigger]
            shows(overlay_at(committed.rows, vid), fresh.overlay_vertex(after, vid)),
    ensures
        forall|vid: VId, label: Option<LabelId>| #[trigger]
            selected(overlay_at(staged.rows, vid), label) == selected(
                overlay_at(committed.rows, vid),
                label,
            ),
        forall|vid: VId, label: LabelId| #[trigger]
            overlay_at(staged.rows, vid).has(label) == overlay_at(committed.rows, vid).has(label),
        forall|vid: VId, key: PropertyKeyId| #[trigger]
            overlay_at(staged.rows, vid).value(key) == overlay_at(committed.rows, vid).value(key),
{
    law_reads_are_published(txn, before, after);
    assert forall|vid: VId| same_shown(
        #[trigger] overlay_at(staged.rows, vid),
        overlay_at(committed.rows, vid),
    ) by {
        let seen = txn.overlay_vertex(before, vid);
        assert(shows(overlay_at(staged.rows, vid), seen));
        assert(shows(overlay_at(committed.rows, vid), fresh.overlay_vertex(after, vid)));
        assert(fresh.basis == CommitSeq((before.tip() + 1) as u64));
        assert(fresh.overlay_vertex(after, vid) == after.vertex_at_spec(vid, fresh.basis));
        lemma_same_shown(overlay_at(staged.rows, vid), overlay_at(committed.rows, vid), seen);
    }
    assert forall|vid: VId, label: Option<LabelId>| #[trigger]
        selected(overlay_at(staged.rows, vid), label) == selected(
            overlay_at(committed.rows, vid),
            label,
        ) by {
        assert(same_shown(overlay_at(staged.rows, vid), overlay_at(committed.rows, vid)));
    }
    assert forall|vid: VId, label: LabelId| #[trigger]
        overlay_at(staged.rows, vid).has(label) == overlay_at(committed.rows, vid).has(label) by {
        assert(same_shown(overlay_at(staged.rows, vid), overlay_at(committed.rows, vid)));
    }
    assert forall|vid: VId, key: PropertyKeyId| #[trigger]
        overlay_at(staged.rows, vid).value(key) == overlay_at(committed.rows, vid).value(key) by {
        assert(same_shown(overlay_at(staged.rows, vid), overlay_at(committed.rows, vid)));
    }
}

spec fn same_shown(left: OverlayView, right: OverlayView) -> bool {
    &&& (left.contents() is Some) == (right.contents() is Some)
    &&& forall|label: LabelId| #[trigger] left.has(label) == right.has(label)
    &&& forall|key: PropertyKeyId| #[trigger] left.value(key) == right.value(key)
}

proof fn lemma_same_shown(left: OverlayView, right: OverlayView, vertex: Option<VertexView>)
    requires
        shows(left, vertex),
        shows(right, vertex),
    ensures
        same_shown(left, right),
{
    if vertex is Some {
        let seen = vertex->0;
        assert forall|label: LabelId| #[trigger] left.has(label) == right.has(label) by {
            assert(seen.labels.contains(label) == left.has(label));
        }
        assert forall|key: PropertyKeyId| #[trigger] left.value(key) == right.value(key) by {
            assert(seen.props.dom().contains(key) == (left.value(key) is Some));
            if seen.props.dom().contains(key) {
                assert(left.value(key) == Some(seen.props[key]));
                assert(right.value(key) == Some(seen.props[key]));
            }
        }
    }
}

/// Committed vertices among the keys show with their contents; the others wait.
spec fn based(
    overlay: OverlayView,
    vid: VId,
    rows: Seq<DeltaRow>,
    vertices: IdMap<VertexRow>,
    keys: Seq<u128>,
) -> bool {
    if keys.contains(vid.0) {
        shows(overlay, vertex_after_rows(vertex_in(vertices, vid), vid, rows))
    } else {
        nets(overlay, vid, rows)
    }
}

} // verus!
