//! Writing everything into a segment.
use crate::collection::{in_id_order, listing, views, CollectionConfig, Point, PointView};
use crate::error::{Error, ErrorView, Result};
use crate::hnsw::model::{built, valid, GraphView, HnswConfig};
use crate::hnsw::{graph_ids, point_views, HnswIndex};
use crate::metadata_index::{catalog_of, Catalog, MetadataIndex};
use crate::metric::{lawful, Kernel};
use crate::persistence::consistency::law_flush_is_in_step;
use crate::persistence::segment::{
    encode_manifest, encode_segment, encoded_manifest, encoded_segment, name_segment, point_ids,
    segment_name, Manifest, SegmentView,
};
use crate::persistence::{in_step, PersistedView, PersistentCollection};
use crate::text::{lemma_text_irreflexive, same_text, text_less};
use vstd::prelude::*;
use vstd::utf8::*;

verus! {

/// What a collection held at a sequence.
pub struct FlushSnapshot {
    config: CollectionConfig,
    sequence: u64,
    points: Vec<Point>,
}

/// What a collection held at a sequence.
pub struct SnapshotView {
    pub config: CollectionConfig,
    pub sequence: u64,
    pub points: Seq<PointView>,
}

impl View for FlushSnapshot {
    type V = SnapshotView;

    closed spec fn view(&self) -> SnapshotView {
        SnapshotView {
            config: self.config,
            sequence: self.sequence,
            points: views(self.points@),
        }
    }
}

/// A segment that is ready to be published.
pub struct PreparedFlush {
    sequence: u64,
    bytes: Vec<u8>,
    index: HnswIndex,
    metadata_index: MetadataIndex,
}

/// A segment that is ready to be published.
pub struct PreparedView {
    pub sequence: u64,
    pub bytes: Seq<u8>,
    pub graph: GraphView,
    pub catalog: Catalog,
}

impl View for PreparedFlush {
    type V = PreparedView;

    closed spec fn view(&self) -> PreparedView {
        PreparedView {
            sequence: self.sequence,
            bytes: self.bytes@,
            graph: self.index@,
            catalog: self.metadata_index@,
        }
    }
}

/// The points as the graph is built from them.
pub open spec fn graph_points(points: Seq<PointView>) -> Seq<(Seq<char>, Seq<u32>)> {
    Seq::new(points.len(), |i: int| (points[i].id, points[i].vector))
}

/// The settings of the graph of a segment.
pub open spec fn segment_graph_config() -> HnswConfig {
    HnswConfig { m: 16, ef_construction: 200 }
}

/// The segment of a snapshot, or why it cannot be made.
pub open spec fn flushed<K: Kernel>(
    kernel: K,
    snapshot: SnapshotView,
) -> core::result::Result<PreparedView, ErrorView> {
    match built(
        kernel,
        snapshot.config.dimension,
        snapshot.config.metric,
        segment_graph_config(),
        graph_points(snapshot.points),
    ) {
        Err(error) => Err(error),
        Ok(graph) => match encoded_segment(
            SegmentView {
                config: snapshot.config,
                sequence: snapshot.sequence,
                points: snapshot.points,
                graph,
            },
        ) {
            Err(error) => Err(error),
            Ok(bytes) => Ok(
                PreparedView {
                    sequence: snapshot.sequence,
                    bytes,
                    graph,
                    catalog: catalog_of(snapshot.points, snapshot.points.len() as int),
                },
            ),
        },
    }
}

/// The graph of a segment is valid, and is one of exactly the points of a snapshot.
pub open spec fn indexed(snapshot: SnapshotView, prepared: PreparedView) -> bool {
    &&& valid(prepared.graph)
    &&& prepared.graph.dimension == snapshot.config.dimension
    &&& prepared.graph.metric == snapshot.config.metric
    &&& prepared.graph.nodes.len() == snapshot.points.len()
    &&& graph_ids(prepared.graph) == point_ids(snapshot.points)
}

/// What publishing a segment takes.
#[derive(Debug, PartialEq, Eq)]
pub enum Publication {
    /// A newer segment has been published; nothing is written.
    Stale { published: u64 },
    /// The segment is written under its name, then the manifest. The log is
    /// emptied when no commit has come since the snapshot; the segment before is
    /// then retired.
    Write { segment: String, manifest: Vec<u8>, empty_log: bool, retire: Option<String> },
}

/// What a [`Publication`] says.
pub enum PublicationView {
    Stale { published: u64 },
    Write {
        segment: Seq<char>,
        manifest: Seq<u8>,
        empty_log: bool,
        retire: Option<Seq<char>>,
    },
}

impl View for Publication {
    type V = PublicationView;

    open spec fn view(&self) -> PublicationView {
        match *self {
            Publication::Stale { published } => PublicationView::Stale { published },
            Publication::Write { segment, manifest, empty_log, retire } => PublicationView::Write {
                segment: segment@,
                manifest: manifest@,
                empty_log,
                retire: match retire {
                    Some(name) => Some(name@),
                    None => None,
                },
            },
        }
    }
}

/// What publishing a segment of a sequence takes, after the last published one.
pub open spec fn publication(
    latest: u64,
    sequence: u64,
    previous: Option<Manifest>,
) -> PublicationView {
    let name = segment_name(sequence);
    match previous {
        Some(manifest) => if manifest.sequence > sequence {
            PublicationView::Stale { published: manifest.sequence }
        } else {
            PublicationView::Write {
                segment: name,
                manifest: encoded_manifest(sequence, name)->Ok_0,
                empty_log: latest == sequence,
                retire: if manifest.segment@ == name {
                    None
                } else {
                    Some(manifest.segment@)
                },
            }
        },
        None => PublicationView::Write {
            segment: name,
            manifest: encoded_manifest(sequence, name)->Ok_0,
            empty_log: latest == sequence,
            retire: None,
        },
    }
}

/// The collection after its segment was published.
pub open spec fn published(before: PersistedView, prepared: PreparedView) -> PersistedView {
    PersistedView {
        dirty: if before.collection.sequence == prepared.sequence {
            Set::empty()
        } else {
            before.dirty
        },
        graph: Some(prepared.graph),
        catalog: Some(prepared.catalog),
        ..before
    }
}

impl PreparedFlush {
    /// The parts are well formed, and the graph has the shape of a collection.
    pub closed spec fn wf(&self, config: CollectionConfig) -> bool {
        &&& self.index.wf()
        &&& self.metadata_index.wf()
        &&& self.index@.dimension == config.dimension
        &&& self.index@.metric == config.metric
    }

    /// The bytes of the segment.
    pub fn segment_bytes(&self) -> (bytes: &Vec<u8>)
        ensures
            bytes@ == self@.bytes,
    {
        &self.bytes
    }
}

/// The name of a segment is short.
pub proof fn lemma_segment_name_length(sequence: u64)
    ensures
        segment_name(sequence).len() == 32,
        encode_utf8(segment_name(sequence)).len() <= 128,
        crate::text::padded(sequence as nat, 20).len() == 20,
{
    let name = segment_name(sequence);
    lemma_padded_len(sequence as nat, 20);
    reveal_strlit("segment-");
    reveal_strlit(".fvs");
    assert(name.len() == 32);
    lemma_encoding_length(name);
}

/// The manifest of a segment can always be written.
pub proof fn lemma_segment_name_fits(sequence: u64)
    ensures
        encoded_manifest(sequence, segment_name(sequence)) is Ok,
{
    lemma_segment_name_length(sequence);
}

proof fn lemma_padded_len(n: nat, width: nat)
    ensures
        crate::text::padded(n, width).len() == width,
    decreases width,
{
    if width > 0 {
        lemma_padded_len(n / 10, (width - 1) as nat);
    }
}

/// A character takes at most four bytes.
proof fn lemma_encoding_length(chars: Seq<char>)
    ensures
        encode_utf8(chars).len() <= 4 * chars.len(),
    decreases chars.len(),
{
    if chars.len() > 0 {
        lemma_encoding_length(chars.drop_first());
    }
}

impl PersistentCollection {
    /// What the collection holds now, to be written into a segment.
    pub fn flush_snapshot(&self) -> (snapshot: FlushSnapshot)
        requires
            self.wf(),
        ensures
            snapshot@.config == self@.collection.config,
            snapshot@.sequence == self@.collection.sequence,
            listing(self@.collection.points, snapshot@.points),
    {
        FlushSnapshot {
            config: self.inner.config(),
            sequence: self.inner.latest_sequence(),
            points: self.inner.snapshot_points(),
        }
    }

    /// Builds the graph and the bytes of a segment.
    pub fn build_flush<K: Kernel>(kernel: &K, snapshot: FlushSnapshot) -> (result: Result<
        PreparedFlush,
    >)
        requires
            lawful(*kernel),
            in_id_order(snapshot@.points),
        ensures
            match flushed(*kernel, snapshot@) {
                Ok(prepared) => {
                    &&& result is Ok
                    &&& result->Ok_0@ == prepared
                    &&& result->Ok_0.wf(snapshot@.config)
                    &&& indexed(snapshot@, prepared)
                },
                Err(error) => result is Err && result->Err_0@ == error,
            },
    {
        proof {
            assert forall|i: int, j: int| 0 <= i < j < snapshot.points@.len() implies (
            #[trigger] snapshot.points@[i]).id@ != (#[trigger] snapshot.points@[j]).id@ by {
                assert(text_less(snapshot@.points[i].id, snapshot@.points[j].id));
                lemma_text_irreflexive(snapshot@.points[i].id);
            }
        }
        let metadata_index = MetadataIndex::build(&snapshot.points);
        let mut points: Vec<(String, Vec<u32>)> = Vec::new();
        let mut i: usize = 0;
        while i < snapshot.points.len()
            invariant
                i <= snapshot.points@.len(),
                points@.len() == i,
                forall|j: int|
                    0 <= j < i ==> (#[trigger] points@[j]).0@ == snapshot.points@[j].id@
                        && points@[j].1@ == snapshot.points@[j].vector@,
            decreases snapshot.points.len() - i,
        {
            points.push(
                (
                    snapshot.points[i].id.clone(),
                    crate::collection::copy_vector(&snapshot.points[i].vector),
                ),
            );
            i = i + 1;
        }
        assert(point_views(points@) =~= graph_points(snapshot@.points));
        let index = HnswIndex::build(
            kernel,
            snapshot.config.dimension,
            snapshot.config.metric,
            HnswConfig::default(),
            points,
        )?;
        proof {
            crate::hnsw::lemma_built_shape(
                *kernel,
                snapshot.config.dimension,
                snapshot.config.metric,
                segment_graph_config(),
                graph_points(snapshot@.points),
            );
        }
        proof {
            let list = snapshot@.points;
            assert forall|id: Seq<char>| graph_ids(index@).contains(id) <==> point_ids(
                list,
            ).contains(id) by {
                if graph_ids(index@).contains(id) {
                    let j = choose|j: int|
                        0 <= j < index@.nodes.len() && (#[trigger] index@.nodes[j]).id == id;
                    assert(list[j].id == id);
                }
                if point_ids(list).contains(id) {
                    let j = choose|j: int| 0 <= j < list.len() && (#[trigger] list[j]).id == id;
                    assert(index@.nodes[j].id == id);
                }
            }
            assert(graph_ids(index@) =~= point_ids(list));
            index.lemma_valid();
        }
        let bytes = encode_segment(
            snapshot.config,
            snapshot.sequence,
            &snapshot.points,
            &index,
        )?;
        Ok(PreparedFlush { sequence: snapshot.sequence, bytes, index, metadata_index })
    }

    /// Decides what publishing a segment takes, after the last published one.
    pub(crate) fn plan_publication(
        &self,
        prepared: &PreparedFlush,
        previous: &Option<Manifest>,
    ) -> (plan: Result<Publication>)
        ensures
            plan is Ok,
            plan->Ok_0@ == publication(self@.collection.sequence, prepared@.sequence, *previous),
    {
        proof {
            lemma_segment_name_fits(prepared.sequence);
        }
        let sequence: u64 = prepared.sequence;
        let segment = name_segment(sequence);
        let empty_log: bool = self.inner.latest_sequence() == sequence;
        let mut retire: Option<String> = None;
        match previous {
            Some(manifest) => {
                if manifest.sequence > sequence {
                    return Ok(Publication::Stale { published: manifest.sequence });
                }
                if !same_text(manifest.segment.as_str(), segment.as_str()) {
                    retire = Some(manifest.segment.clone());
                }
            },
            None => {},
        }
        let manifest = encode_manifest(sequence, segment.as_str())?;
        Ok(Publication::Write { segment, manifest, empty_log, retire })
    }

    /// Takes over a segment that has been published.
    pub(crate) fn settle_flush(&mut self, prepared: PreparedFlush)
        requires
            old(self).wf(),
            prepared.wf(old(self)@.collection.config),
        ensures
            final(self).wf(),
            final(self)@ == published(old(self)@, prepared@),
    {
        if self.inner.latest_sequence() == prepared.sequence {
            self.dirty_ids.clear();
        }
        self.index = Some(prepared.index);
        self.metadata_index = Some(prepared.metadata_index);
    }

    /// Publishes a segment, after the last published one, and returns the
    /// sequence that is then published. `write` carries the plan out; only when it
    /// has done so does the collection use the segment. A segment older than the
    /// published one is dropped: nothing is written of it.
    pub fn publish_flush<W: FnOnce(&Vec<u8>, &Publication) -> Result<()>>(
        &mut self,
        prepared: PreparedFlush,
        previous: Option<Manifest>,
        write: W,
    ) -> (result: Result<u64>)
        requires
            old(self).wf(),
            prepared.wf(old(self)@.collection.config),
            forall|bytes: &Vec<u8>, plan: &Publication|
                publishes(old(self)@, prepared@, previous, bytes@, plan@) ==> #[trigger]
                    write.requires((bytes, plan)),
        ensures
            final(self).wf(),
            match publication(old(self)@.collection.sequence, prepared@.sequence, previous) {
                PublicationView::Stale { published } => result == Ok::<u64, Error>(published)
                    && final(self)@ == old(self)@,
                plan => exists|bytes: &Vec<u8>, written: &Publication, outcome: Result<()>| #[trigger]
                    write.ensures((bytes, written), outcome) && bytes@ == prepared@.bytes
                        && written@ == plan && match outcome {
                        Ok(_) => result == Ok::<u64, Error>(prepared@.sequence) && final(self)@
                            == published(old(self)@, prepared@),
                        Err(error) => result == Err::<u64, Error>(error) && final(self)@ == old(
                            self)@,
                    },
            },
    {
        let plan = self.plan_publication(&prepared, &previous)?;
        match plan {
            Publication::Stale { published } => Ok(published),
            Publication::Write { .. } => {
                let sequence: u64 = prepared.sequence;
                let outcome = write(&prepared.bytes, &plan);
                assert(write.ensures((&prepared.bytes, &plan), outcome));
                match outcome {
                    Err(error) => Err(error),
                    Ok(_) => {
                        self.settle_flush(prepared);
                        Ok(sequence)
                    },
                }
            },
        }
    }

    /// Writes everything into a segment and publishes it.
    pub fn flush<K: Kernel, W: FnOnce(&Vec<u8>, &Publication) -> Result<()>>(
        &mut self,
        kernel: &K,
        previous: Option<Manifest>,
        write: W,
    ) -> (result: Result<u64>)
        requires
            old(self).wf(),
            lawful(*kernel),
            forall|bytes: &Vec<u8>, plan: &Publication|
                (exists|snapshot: SnapshotView| #[trigger]
                    snapshot_of(old(self)@, snapshot) && flushed(*kernel, snapshot) is Ok
                        && publishes(
                        old(self)@,
                        flushed(*kernel, snapshot)->Ok_0,
                        previous,
                        bytes@,
                        plan@,
                    )) ==> #[trigger] write.requires((bytes, plan)),
        ensures
            final(self).wf(),
            in_step(old(self)@) ==> in_step(final(self)@),
            exists|snapshot: SnapshotView| #[trigger]
                snapshot_of(old(self)@, snapshot) && match flushed(*kernel, snapshot) {
                    Err(error) => result is Err && result->Err_0@ == error && final(self)@ == old(
                        self)@,
                    Ok(prepared) => indexed(snapshot, prepared) && match publication(
                        old(self)@.collection.sequence,
                        prepared.sequence,
                        previous,
                    ) {
                        PublicationView::Stale { published } => result == Ok::<u64, Error>(
                            published,
                        ) && final(self)@ == old(self)@,
                        plan => exists|
                            bytes: &Vec<u8>,
                            written: &Publication,
                            outcome: Result<()>,
                        | #[trigger]
                            write.ensures((bytes, written), outcome) && bytes@ == prepared.bytes
                                && written@ == plan && match outcome {
                                Ok(_) => result == Ok::<u64, Error>(prepared.sequence) && final(
                                    self)@ == published(old(self)@, prepared),
                                Err(error) => result == Err::<u64, Error>(error) && final(self)@
                                    == old(self)@,
                            },
                    },
                },
    {
        let snapshot = self.flush_snapshot();
        let ghost taken = snapshot@;
        assert(snapshot_of(self@, taken));
        let prepared = PersistentCollection::build_flush(kernel, snapshot)?;
        proof {
            law_flush_is_in_step(self@, taken, prepared@);
        }
        self.publish_flush(prepared, previous, write)
    }
}

/// Publishing a segment, after the last published one, comes to writing these bytes by
/// this plan.
pub open spec fn publishes(
    v: PersistedView,
    prepared: PreparedView,
    previous: Option<Manifest>,
    bytes: Seq<u8>,
    plan: PublicationView,
) -> bool {
    &&& bytes == prepared.bytes
    &&& plan is Write
    &&& plan == publication(v.collection.sequence, prepared.sequence, previous)
}

/// A snapshot is of a collection: everything that it holds, in the order of the IDs.
pub open spec fn snapshot_of(v: PersistedView, snapshot: SnapshotView) -> bool {
    &&& snapshot.config == v.collection.config
    &&& snapshot.sequence == v.collection.sequence
    &&& listing(v.collection.points, snapshot.points)
}

/// A published segment is never replaced by an older one, and never retired in favour of
/// itself; and the log is emptied only where it holds nothing that the segment lacks.
pub proof fn law_newer_segments_stay(latest: u64, sequence: u64, previous: Option<Manifest>)
    ensures
        match publication(latest, sequence, previous) {
            PublicationView::Stale { published } => previous is Some && published
                == previous->0.sequence && published > sequence,
            PublicationView::Write { segment, empty_log, retire, .. } => {
                &&& previous matches Some(manifest) ==> manifest.sequence <= sequence
                &&& empty_log <==> latest == sequence
                &&& retire matches Some(name) ==> name != segment && previous is Some && name
                    == previous->0.segment@
                &&& previous matches Some(manifest) ==> retire is Some || manifest.segment@
                    == segment
            },
        },
{
}

} // verus!
