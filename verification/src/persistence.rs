//! Collections that outlive the process.
//!
//! A commit is first appended to a log and only then applied; a flush writes
//! everything into a segment, names it in a manifest and empties the log. The
//! library decides what is written and what it means; the caller moves the
//! bytes.
use crate::bytes::{
    lemma_byte_ranges, lemma_le_round_trip, lemma_le_value_bound, number, repeated, Format,
};
use crate::collection::{
    accepted_query, admits, fits, found, has_newer, lemma_prepared_each,
    lemma_with_points_no_newer, lemma_without_points, pool, prepared_batch, prepared_point,
    prepared_points, ranks, restored, views, with_points, without_points, Collection, CollectionConfig, CollectionView,
    HitView, Point, PointView, SearchHit, UpsertPoint, UpsertView,
};
use crate::error::{Error, ErrorView, Result};
use crate::filter::Filter;
use crate::hits::{law_merge_keeps_the_best, merge_hits, merge_of, rank_set};
use crate::hnsw::codec::corrupt;
use crate::hnsw::model::{valid, GraphView};
use crate::hnsw::{graph_hits, graph_ids, graph_query, HnswHit, HnswIndex};
use crate::ids::IdSet;
use crate::metadata_index::{catalog_of, matching, Catalog, MetadataIndex};
use crate::metric::{all_finite, all_zero, is_all_finite, is_all_zero, lawful, Kernel, Metric};
use crate::ranking::{best_of, Ranked};
use crate::text::join;
use record::all_encoded;
use segment::{decode_segment, parse_segment};
use vstd::prelude::*;
use vstd::string::*;
use wal::{
    add_ids, delete_frame, encode_upsert, encoded_delete, encoded_upsert, framed, make_frame,
    recover, recovered,
};

pub mod consistency;
pub mod durable;
pub mod fidelity;
pub mod flush;
pub mod laws;
pub mod record;
pub mod reopening;
pub mod segment;
pub mod unfiltered;
pub mod wal;

verus! {

/// When an acknowledged commit is safe.
#[derive(Debug, Clone, Copy, PartialEq, Eq, Structural)]
pub enum Durability {
    /// The bytes are on stable storage before a commit returns.
    Sync,
    /// The bytes are with the operating system before a commit returns. A power
    /// loss can lose acknowledged commits; a crash of the process cannot.
    Flush,
}

/// What a persistent collection holds: the points, the IDs changed since its
/// segment, and the graph and the metadata of the segment.
pub struct PersistedView {
    pub collection: CollectionView,
    pub dirty: Set<Seq<char>>,
    pub graph: Option<GraphView>,
    pub catalog: Option<Catalog>,
}

/// Beside the changed IDs, the segment's graph and metadata are those of the points.
pub open spec fn in_step(v: PersistedView) -> bool {
    &&& v.catalog matches Some(catalog) ==> forall|id: Seq<char>|
        !v.dirty.contains(id) ==> {
            &&& #[trigger] catalog.contains_key(id) == v.collection.points.contains_key(id)
            &&& catalog.contains_key(id) ==> catalog[id] == v.collection.points[id].metadata
        }
    &&& v.graph matches Some(graph) ==> forall|id: Seq<char>|
        !v.dirty.contains(id) ==> #[trigger] graph_ids(graph).contains(id)
            == v.collection.points.contains_key(id)
}

/// A collection that outlives the process.
pub struct PersistentCollection {
    inner: Collection,
    durability: Durability,
    index: Option<HnswIndex>,
    metadata_index: Option<MetadataIndex>,
    dirty_ids: IdSet,
}

impl View for PersistentCollection {
    type V = PersistedView;

    closed spec fn view(&self) -> PersistedView {
        PersistedView {
            collection: self.inner@,
            dirty: self.dirty_ids@,
            graph: match self.index {
                Some(index) => Some(index@),
                None => None,
            },
            catalog: match self.metadata_index {
                Some(index) => Some(index@),
                None => None,
            },
        }
    }
}

/// The segment that an open starts from: its sequence by the manifest, and its bytes.
pub struct StoredSegment<'a> {
    pub sequence: u64,
    pub bytes: &'a [u8],
}

/// What a stored segment gives a collection to start from.
pub open spec fn loaded(
    config: CollectionConfig,
    sequence: u64,
    bytes: Seq<u8>,
) -> core::result::Result<PersistedView, ErrorView> {
    if bytes.len() == 0 {
        corrupt("segment file is empty"@)
    } else {
        match parse_segment(bytes) {
            Err(error) => Err(error),
            Ok(segment) => if segment.config != config {
                corrupt("segment configuration differs from collection metadata"@)
            } else if segment.sequence != sequence {
                corrupt("manifest and segment sequences differ"@)
            } else {
                match restored(segment.points, sequence) {
                    Err(error) => Err(error),
                    Ok(points) => Ok(
                        PersistedView {
                            collection: CollectionView { config, points, sequence },
                            dirty: Set::empty(),
                            graph: Some(segment.graph),
                            catalog: Some(
                                catalog_of(segment.points, segment.points.len() as int),
                            ),
                        },
                    ),
                }
            },
        }
    }
}

/// What an open starts from, before the log.
pub open spec fn started(
    config: CollectionConfig,
    segment: Option<StoredSegment>,
) -> core::result::Result<PersistedView, ErrorView> {
    if config.dimension == 0 {
        Err(ErrorView::InvalidConfig("dimension must be greater than zero"@))
    } else {
        match segment {
            None => Ok(
                PersistedView {
                    collection: CollectionView { config, points: Map::empty(), sequence: 0 },
                    dirty: Set::empty(),
                    graph: None,
                    catalog: None,
                },
            ),
            Some(stored) => loaded(config, stored.sequence, stored.bytes@),
        }
    }
}

/// The collection that a segment and a log hold, and the length of the log up to
/// its last whole frame.
pub open spec fn opened<K: Kernel>(
    kernel: K,
    config: CollectionConfig,
    segment: Option<StoredSegment>,
    wal: Seq<u8>,
) -> core::result::Result<(PersistedView, int), ErrorView> {
    match started(config, segment) {
        Err(error) => Err(error),
        Ok(start) => match recovered(kernel, start.collection, start.dirty, wal, 0) {
            Err(error) => Err(error),
            Ok(recovery) => Ok(
                (
                    PersistedView {
                        collection: recovery.collection,
                        dirty: recovery.dirty,
                        ..start
                    },
                    recovery.valid_length,
                ),
            ),
        },
    }
}

/// A commit that is ready to be logged: what it will make of the collection, and
/// the frame that goes into the log first.
pub struct Commit {
    pub after: PersistedView,
    pub frame: Seq<u8>,
}

/// The IDs of points.
pub open spec fn written_ids(points: Seq<PointView>) -> Seq<Seq<char>> {
    Seq::new(points.len(), |i: int| points[i].id)
}

/// A stored vector that a reader of the log can prepare again: of the right size,
/// finite and, under the cosine metric, not all zeros.
pub open spec fn takes_back(config: CollectionConfig, vector: Seq<u32>) -> bool {
    &&& vector.len() == config.dimension
    &&& all_finite(vector)
    &&& config.metric == Metric::Cosine ==> !all_zero(vector)
}

/// A batch as it goes into the log at a sequence: its points in their stored form,
/// and its frame.
pub struct Logged {
    pub points: Seq<PointView>,
    pub frame: Seq<u8>,
}

/// A batch as it goes into the log, or why it is refused. What a reader of the log
/// does not take back is refused: a vector that it cannot prepare again, a count or a
/// text over [`record::MAX_ITEMS`], a float that is not finite, and a record over
/// [`wal::MAX_FRAME_BYTES`].
pub open spec fn logged_batch<K: Kernel>(
    kernel: K,
    config: CollectionConfig,
    batch: Seq<UpsertView>,
    sequence: u64,
) -> core::result::Result<Logged, ErrorView> {
    match prepared_batch(kernel, config, batch, sequence) {
        Err(error) => Err(error),
        Ok(points) => if exists|i: int|
            0 <= i < points.len() && !takes_back(config, (#[trigger] points[i]).vector) {
            Err(ErrorView::InvalidQuery("stored vectors must be finite and keep a norm"@))
        } else {
            match framed(encoded_upsert(sequence, points)) {
                Err(error) => Err(error),
                Ok(frame) => Ok(Logged { points, frame }),
            }
        },
    }
}

/// Points prepared for one sequence are, but for the sequence, those prepared for
/// another, and are written as the same bytes.
proof fn lemma_prepared_at_any_sequence<K: Kernel>(
    kernel: K,
    config: CollectionConfig,
    batch: Seq<UpsertView>,
    a: u64,
    b: u64,
)
    requires
        prepared_points(kernel, config, batch, a) is Ok,
    ensures
        ({
            let x = prepared_points(kernel, config, batch, a)->Ok_0;
            let y = prepared_points(kernel, config, batch, b)->Ok_0;
            &&& prepared_points(kernel, config, batch, b) is Ok
            &&& x.len() == y.len()
            &&& forall|i: int| 0 <= i < x.len() ==> (#[trigger] x[i]).vector == y[i].vector
            &&& all_encoded(x, wal::encoded_point()) == all_encoded(y, wal::encoded_point())
        }),
    decreases batch.len(),
{
    if batch.len() > 0 {
        let rest = batch.drop_last();
        lemma_prepared_at_any_sequence(kernel, config, rest, a, b);
        let x = prepared_points(kernel, config, batch, a)->Ok_0;
        let y = prepared_points(kernel, config, batch, b)->Ok_0;
        let front = prepared_points(kernel, config, rest, a)->Ok_0;
        let other = prepared_points(kernel, config, rest, b)->Ok_0;
        assert(prepared_point(kernel, config, batch.last(), b) is Ok);
        assert forall|i: int| 0 <= i < x.len() implies (#[trigger] x[i]).vector == y[i].vector by {
            if i < front.len() {
                assert(x[i] == front[i] && y[i] == other[i]);
                assert(front[i].vector == other[i].vector);
            }
        }
        assert(x.drop_last() =~= front);
        assert(y.drop_last() =~= other);
    }
}

/// Whether a batch can be logged does not depend on its sequence.
pub proof fn lemma_logged_at_any_sequence<K: Kernel>(
    kernel: K,
    config: CollectionConfig,
    batch: Seq<UpsertView>,
    a: u64,
    b: u64,
)
    requires
        logged_batch(kernel, config, batch, a) is Ok,
    ensures
        logged_batch(kernel, config, batch, b) is Ok,
{
    lemma_prepared_at_any_sequence(kernel, config, batch, a, b);
    lemma_le_round_trip(a as nat, 8);
    lemma_le_round_trip(b as nat, 8);
    let x = prepared_points(kernel, config, batch, a)->Ok_0;
    let y = prepared_points(kernel, config, batch, b)->Ok_0;
    assert forall|i: int| 0 <= i < y.len() implies takes_back(
        config,
        (#[trigger] y[i]).vector,
    ) by {
        assert(x[i].vector == y[i].vector);
    }
}

/// What a deletion is refused for before it is encoded.
pub open spec fn delete_fault(ids: Seq<Seq<char>>) -> Option<ErrorView> {
    if ids.len() == 0 {
        Some(ErrorView::InvalidQuery("delete batch must not be empty"@))
    } else if exists|i: int| 0 <= i < ids.len() && (#[trigger] ids[i]).len() == 0 {
        Some(ErrorView::InvalidQuery("point ID must not be empty"@))
    } else {
        None
    }
}

/// What writing a batch takes, or why it is refused.
pub open spec fn upsert_commit<K: Kernel>(
    kernel: K,
    before: PersistedView,
    batch: Seq<UpsertView>,
) -> core::result::Result<Commit, ErrorView> {
    let c = before.collection;
    if c.sequence == u64::MAX {
        Err(ErrorView::SequenceOverflow)
    } else {
        let sequence = (c.sequence + 1) as u64;
        match logged_batch(kernel, c.config, batch, sequence) {
            Err(error) => Err(error),
            Ok(logged) => Ok(
                Commit {
                    after: PersistedView {
                        collection: CollectionView {
                            config: c.config,
                            points: with_points(c.points, logged.points),
                            sequence,
                        },
                        dirty: before.dirty.union(written_ids(logged.points).to_set()),
                        ..before
                    },
                    frame: logged.frame,
                },
            ),
        }
    }
}

/// What a deletion takes, or why it is refused. What a reader of the log does not
/// take back is refused: too many IDs, an ID that is too long, a record that is too
/// large.
pub open spec fn delete_commit(before: PersistedView, ids: Seq<Seq<char>>) -> core::result::Result<
    Commit,
    ErrorView,
> {
    let c = before.collection;
    match delete_fault(ids) {
        Some(error) => Err(error),
        None => if c.sequence == u64::MAX {
            Err(ErrorView::SequenceOverflow)
        } else {
            let sequence = (c.sequence + 1) as u64;
            match framed(encoded_delete(sequence, ids)) {
                Err(error) => Err(error),
                Ok(frame) => Ok(
                    Commit {
                        after: PersistedView {
                            collection: CollectionView {
                                config: c.config,
                                points: without_points(c.points, ids),
                                sequence,
                            },
                            dirty: before.dirty.union(ids.to_set()),
                            ..before
                        },
                        frame,
                    },
                ),
            }
        },
    }
}

/// A batch that is ready to be logged.
pub struct StagedUpsert {
    sequence: u64,
    points: Vec<Point>,
    frame: Vec<u8>,
}

/// A deletion that is ready to be logged.
pub struct StagedDelete {
    sequence: u64,
    ids: Vec<String>,
    frame: Vec<u8>,
}

impl StagedUpsert {
    /// The frame that goes into the log.
    pub closed spec fn frame(&self) -> Seq<u8> {
        self.frame@
    }

    /// The batch of a collection of this shape, ready to be logged at a sequence.
    pub closed spec fn holds(&self, config: CollectionConfig, logged: Logged, sequence: u64) -> bool {
        &&& self.sequence == sequence
        &&& views(self.points@) == logged.points
        &&& self.frame@ == logged.frame
        &&& forall|i: int|
            0 <= i < self.points@.len() ==> fits(config, (#[trigger] self.points@[i])@)
                && self.points@[i].sequence == sequence
    }

    /// Staged for a collection in this state, to leave it in that one.
    pub closed spec fn leads(&self, before: PersistedView, after: PersistedView) -> bool {
        &&& self.sequence == before.collection.sequence + 1
        &&& after == PersistedView {
            collection: CollectionView {
                config: before.collection.config,
                points: with_points(before.collection.points, views(self.points@)),
                sequence: self.sequence,
            },
            dirty: before.dirty.union(written_ids(views(self.points@)).to_set()),
            ..before
        }
        &&& forall|i: int|
            0 <= i < self.points@.len() ==> fits(
                before.collection.config,
                (#[trigger] self.points@[i])@,
            ) && self.points@[i].sequence == self.sequence
    }

    /// The frame that goes into the log.
    pub fn log_frame(&self) -> (frame: &Vec<u8>)
        ensures
            frame@ == self.frame(),
    {
        &self.frame
    }
}

impl StagedDelete {
    /// The frame that goes into the log.
    pub closed spec fn frame(&self) -> Seq<u8> {
        self.frame@
    }

    /// Staged for a collection in this state, to leave it in that one.
    pub closed spec fn leads(&self, before: PersistedView, after: PersistedView) -> bool {
        &&& self.sequence == before.collection.sequence + 1
        &&& after == PersistedView {
            collection: CollectionView {
                config: before.collection.config,
                points: without_points(before.collection.points, views(self.ids@)),
                sequence: self.sequence,
            },
            dirty: before.dirty.union(views(self.ids@).to_set()),
            ..before
        }
    }

    /// The frame that goes into the log.
    pub fn log_frame(&self) -> (frame: &Vec<u8>)
        ensures
            frame@ == self.frame(),
    {
        &self.frame
    }
}

/// Whether a reader of the log can prepare every point again.
fn are_taken_back(config: CollectionConfig, points: &Vec<Point>) -> (taken: bool)
    ensures
        taken == !(exists|i: int|
            0 <= i < points@.len() && !takes_back(config, (#[trigger] views(points@)[i]).vector)),
{
    let mut i: usize = 0;
    while i < points.len()
        invariant
            i <= points@.len(),
            forall|j: int|
                0 <= j < i ==> takes_back(config, (#[trigger] views(points@)[j]).vector),
        decreases points.len() - i,
    {
        assert(views(points@)[i as int].vector == points@[i as int].vector@);
        let vector = &points[i].vector;
        if vector.len() != config.dimension || !is_all_finite(vector) || config.metric
            == Metric::Cosine && is_all_zero(vector) {
            return false;
        }
        i = i + 1;
    }
    true
}

/// Validates a batch for a collection and makes its frame.
pub(crate) fn stage_batch<K: Kernel>(
    kernel: &K,
    collection: &Collection,
    points: Vec<UpsertPoint>,
    sequence: u64,
) -> (result: Result<StagedUpsert>)
    requires
        lawful(*kernel),
    ensures
        match logged_batch(*kernel, collection@.config, views(points@), sequence) {
            Ok(logged) => {
                &&& result is Ok
                &&& result->Ok_0.holds(collection@.config, logged, sequence)
            },
            Err(error) => result is Err && result->Err_0@ == error,
        },
{
    let prepared = collection.prepare_upsert(kernel, points, sequence)?;
    assert(views(prepared@).len() == prepared@.len());
    if !are_taken_back(collection.config(), &prepared) {
        return Err(Error::InvalidQuery("stored vectors must be finite and keep a norm"));
    }
    let payload = encode_upsert(sequence, &prepared)?;
    let frame = make_frame(&payload)?;
    proof {
        assert forall|i: int| 0 <= i < prepared@.len() implies fits(
            collection@.config,
            (#[trigger] prepared@[i])@,
        ) && prepared@[i].sequence == sequence by {
            assert(views(prepared@)[i] == prepared@[i]@);
        }
    }
    Ok(StagedUpsert { sequence, points: prepared, frame })
}

fn ids_of_points(points: &Vec<Point>) -> (ids: Vec<String>)
    ensures
        views(ids@) == written_ids(views(points@)),
{
    let mut ids: Vec<String> = Vec::new();
    let mut i: usize = 0;
    while i < points.len()
        invariant
            i <= points@.len(),
            ids@.len() == i,
            forall|j: int| 0 <= j < i ==> (#[trigger] ids@[j])@ == points@[j].id@,
        decreases points.len() - i,
    {
        ids.push(points[i].id.clone());
        i = i + 1;
    }
    assert(views(ids@) =~= written_ids(views(points@)));
    ids
}

impl PersistentCollection {
    /// The parts are well formed, no point is newer than the last commit, and the
    /// graph is one of this collection's shape.
    pub closed spec fn wf(&self) -> bool {
        &&& self.inner.wf()
        &&& self.inner@.no_newer()
        &&& self.dirty_ids.wf()
        &&& self.index matches Some(index) ==> {
            &&& index.wf()
            &&& index@.dimension == self.inner@.config.dimension
            &&& index@.metric == self.inner@.config.metric
        }
        &&& self.metadata_index matches Some(index) ==> index.wf()
        &&& self.index is Some == self.metadata_index is Some
    }

    /// A collection holds finitely many points, and finitely many of them have changed
    /// since its segment.
    pub proof fn law_contents_are_finite(&self)
        requires
            self.wf(),
        ensures
            self@.dirty.finite(),
            self@.collection.points.dom().finite(),
    {
        self.dirty_ids.lemma_order();
        self.inner.lemma_valid();
    }

    /// The graph of a collection is valid and of the shape of its points.
    pub proof fn law_graph_is_valid(&self)
        requires
            self.wf(),
        ensures
            self@.graph matches Some(graph) ==> {
                &&& valid(graph)
                &&& graph.nodes.len() <= usize::MAX
                &&& graph.dimension == self@.collection.config.dimension
                &&& graph.metric == self@.collection.config.metric
            },
    {
        if let Some(index) = &self.index {
            index.lemma_valid();
        }
    }

    /// The points of a collection are valid, and none is newer than the last commit.
    pub proof fn law_points_are_valid(&self)
        requires
            self.wf(),
        ensures
            self@.collection.valid(),
            self@.collection.no_newer(),
    {
        self.inner.lemma_valid();
    }

    /// Opens a collection from its current segment and its log. Beside the
    /// collection comes the length of the log up to its last whole frame; what is
    /// behind it was never acknowledged and is to be cut off.
    pub fn open<K: Kernel>(
        kernel: &K,
        config: CollectionConfig,
        durability: Durability,
        segment: Option<StoredSegment>,
        wal: &[u8],
    ) -> (result: Result<(PersistentCollection, usize)>)
        requires
            lawful(*kernel),
        ensures
            match opened(*kernel, config, segment, wal@) {
                Ok((view, valid_length)) => {
                    &&& result is Ok
                    &&& result->Ok_0.0.wf()
                    &&& result->Ok_0.0@ == view
                    &&& result->Ok_0.0.promises() == durability
                    &&& result->Ok_0.1 == valid_length
                },
                Err(error) => result is Err && result->Err_0@ == error,
            },
    {
        let mut inner = Collection::new(config)?;
        let mut index: Option<HnswIndex> = None;
        let mut metadata_index: Option<MetadataIndex> = None;
        match segment {
            None => {},
            Some(stored) => {
                if stored.bytes.len() == 0 {
                    return Err(Error::corrupt("segment file is empty"));
                }
                let decoded = decode_segment(stored.bytes)?;
                if decoded.config != config {
                    return Err(
                        Error::corrupt("segment configuration differs from collection metadata"),
                    );
                }
                if decoded.sequence != stored.sequence {
                    return Err(Error::corrupt("manifest and segment sequences differ"));
                }
                let ghost points = views(decoded.points@);
                let mut copies: Vec<Point> = Vec::new();
                let mut i: usize = 0;
                while i < decoded.points.len()
                    invariant
                        i <= decoded.points@.len(),
                        copies@.len() == i,
                        forall|j: int| 0 <= j < i ==> (#[trigger] copies@[j])@ == decoded.points@[j]@,
                    decreases decoded.points.len() - i,
                {
                    let copy = decoded.points[i].clone();
                    copies.push(copy);
                    i = i + 1;
                }
                proof {
                    assert(views(copies@) =~= points);
                    assert forall|j: int| 0 <= j < copies@.len() implies (
                    #[trigger] copies@[j]).id@.len() > 0 && copies@[j].vector@.len()
                        == inner@.config.dimension by {
                        assert(points[j] == copies@[j]@);
                    }
                }
                inner.restore_snapshot(copies, stored.sequence)?;
                proof {
                    assert forall|i: int, j: int|
                        0 <= i < j < decoded.points@.len() implies (
                    #[trigger] decoded.points@[i]).id@ != (#[trigger] decoded.points@[j]).id@ by {
                        assert(points[i].id != points[j].id);
                    }
                }
                metadata_index = Some(MetadataIndex::build(&decoded.points));
                index = Some(decoded.index);
            },
        }
        let mut dirty_ids = IdSet::new();
        let ghost start = inner@;
        proof {
            let first = started(config, segment);
            assert(first is Ok);
            assert(first->Ok_0.collection == start);
            assert(first->Ok_0.dirty == dirty_ids@);
            assert(start.no_newer()) by {
                if let Some(stored) = segment {
                    let points = parse_segment(stored.bytes@)->Ok_0.points;
                    assert(restored(points, stored.sequence) is Ok);
                    assert forall|i: int| 0 <= i < points.len() implies (
                    #[trigger] points[i]).sequence <= stored.sequence by {
                        if points[i].sequence > stored.sequence {
                            assert(has_newer(points, stored.sequence));
                        }
                    }
                    lemma_with_points_no_newer(Map::empty(), points, stored.sequence);
                }
            }
            lemma_recovered_config(*kernel, start, Set::empty(), wal@, 0);
        }
        let valid_length: usize = recover(kernel, wal, &mut inner, &mut dirty_ids)?;
        let opened = PersistentCollection {
            inner,
            durability,
            index,
            metadata_index,
            dirty_ids,
        };
        Ok((opened, valid_length))
    }

    /// The shape of the collection.
    pub fn config(&self) -> (config: CollectionConfig)
        ensures
            config == self@.collection.config,
    {
        self.inner.config()
    }

    /// When an acknowledged commit is safe.
    pub closed spec fn promises(&self) -> Durability {
        self.durability
    }

    /// When an acknowledged commit is safe.
    pub fn durability(&self) -> (durability: Durability)
        ensures
            durability == self.promises(),
    {
        self.durability
    }

    /// The number of points.
    pub fn len(&self) -> (length: usize)
        requires
            self.wf(),
        ensures
            length == self@.collection.points.len(),
    {
        self.inner.len()
    }

    /// Whether there are no points.
    pub fn is_empty(&self) -> (empty: bool)
        requires
            self.wf(),
        ensures
            empty == (self@.collection.points.len() == 0),
    {
        self.inner.is_empty()
    }

    /// The points in memory.
    pub fn collection(&self) -> (collection: &Collection)
        requires
            self.wf(),
        ensures
            collection@ == self@.collection,
            collection.wf(),
    {
        &self.inner
    }

    /// The sequence of the last commit.
    pub fn latest_sequence(&self) -> (sequence: u64)
        ensures
            sequence == self@.collection.sequence,
    {
        self.inner.latest_sequence()
    }

    /// Whether a graph serves the searches.
    pub fn has_approximate_index(&self) -> (has: bool)
        ensures
            has == (self@.graph is Some),
    {
        self.index.is_some()
    }

    /// The number of IDs changed since the segment.
    pub fn pending_point_count(&self) -> (count: usize)
        requires
            self.wf(),
        ensures
            count == self@.dirty.len(),
    {
        self.dirty_ids.len()
    }

    /// Validates a batch and makes its frame. Nothing is changed.
    pub fn stage_upsert<K: Kernel>(&self, kernel: &K, points: Vec<UpsertPoint>) -> (result: Result<
        StagedUpsert,
    >)
        requires
            self.wf(),
            lawful(*kernel),
        ensures
            match upsert_commit(*kernel, self@, views(points@)) {
                Ok(commit) => {
                    &&& result is Ok
                    &&& result->Ok_0.frame() == commit.frame
                    &&& result->Ok_0.leads(self@, commit.after)
                },
                Err(error) => result is Err && result->Err_0@ == error,
            },
    {
        let sequence: u64 = self.inner.next_sequence()?;
        stage_batch(kernel, &self.inner, points, sequence)
    }

    /// Ends a batch by what became of its frame: where it was logged the batch is
    /// applied, where it was not nothing is changed.
    pub fn settle_upsert(&mut self, staged: StagedUpsert, logged: Result<()>) -> (result: Result<
        u64,
    >)
        requires
            old(self).wf(),
            exists|after: PersistedView| staged.leads(old(self)@, after),
        ensures
            final(self).wf(),
            match logged {
                Ok(_) => staged.leads(old(self)@, final(self)@) && result == Ok::<u64, Error>(
                    final(self)@.collection.sequence,
                ),
                Err(error) => result == Err::<u64, Error>(error) && final(self)@ == old(self)@,
            },
    {
        match logged {
            Err(error) => Err(error),
            Ok(_) => {
                let ghost before = self@;
                let sequence: u64 = staged.sequence;
                let ids = ids_of_points(&staged.points);
                proof {
                    let batch = views(staged.points@);
                    assert forall|i: int| 0 <= i < batch.len() implies (
                    #[trigger] batch[i]).sequence <= sequence by {
                        assert(staged.points@[i].sequence == sequence);
                    }
                    lemma_with_points_no_newer(before.collection.points, batch, sequence);
                }
                self.inner.apply_prepared_upsert(staged.points, sequence);
                add_ids(&mut self.dirty_ids, &ids);
                Ok(sequence)
            },
        }
    }

    /// Writes a batch as one commit, and returns its sequence. `append` puts the
    /// frame into the log; only when it has done so is the batch applied. It is
    /// asked for nothing but the frame of the commit, and only where there is one:
    /// a batch that is refused leaves no byte in the log.
    pub fn upsert<K: Kernel, A: FnOnce(&Vec<u8>) -> Result<()>>(
        &mut self,
        kernel: &K,
        points: Vec<UpsertPoint>,
        append: A,
    ) -> (result: Result<u64>)
        requires
            old(self).wf(),
            lawful(*kernel),
            forall|frame: &Vec<u8>|
                (upsert_commit(*kernel, old(self)@, views(points@)) matches Ok(commit) && frame@
                    == commit.frame) ==> #[trigger] append.requires((frame,)),
        ensures
            final(self).wf(),
            match upsert_commit(*kernel, old(self)@, views(points@)) {
                Err(error) => result is Err && result->Err_0@ == error && final(self)@ == old(
                    self)@,
                Ok(commit) => exists|frame: &Vec<u8>, logged: Result<()>| #[trigger]
                    append.ensures((frame,), logged) && frame@ == commit.frame && match logged {
                        Ok(_) => final(self)@ == commit.after && result == Ok::<u64, Error>(
                            commit.after.collection.sequence,
                        ),
                        Err(error) => final(self)@ == old(self)@ && result == Err::<u64, Error>(
                            error,
                        ),
                    },
            },
    {
        let staged = self.stage_upsert(kernel, points)?;
        let logged = append(&staged.frame);
        assert(append.ensures((&staged.frame,), logged));
        self.settle_upsert(staged, logged)
    }

    /// Checks a deletion and makes its frame. Nothing is changed.
    pub fn stage_delete(&self, ids: Vec<String>) -> (result: Result<StagedDelete>)
        requires
            self.wf(),
        ensures
            match delete_commit(self@, views(ids@)) {
                Ok(commit) => {
                    &&& result is Ok
                    &&& result->Ok_0.frame() == commit.frame
                    &&& result->Ok_0.leads(self@, commit.after)
                },
                Err(error) => result is Err && result->Err_0@ == error,
            },
    {
        if ids.len() == 0 {
            return Err(Error::InvalidQuery("delete batch must not be empty"));
        }
        let mut i: usize = 0;
        while i < ids.len()
            invariant
                i <= ids@.len(),
                forall|j: int| 0 <= j < i ==> (#[trigger] ids@[j])@.len() > 0,
                ids@.len() > 0,
            decreases ids.len() - i,
        {
            if ids[i].as_str().is_empty() {
                assert(views(ids@)[i as int].len() == 0);
                return Err(Error::InvalidQuery("point ID must not be empty"));
            }
            i = i + 1;
        }
        proof {
            assert forall|j: int| 0 <= j < views(ids@).len() implies (
            #[trigger] views(ids@)[j]).len() > 0 by {
                assert(ids@[j]@.len() > 0);
            }
        }
        let sequence: u64 = self.inner.next_sequence()?;
        let frame = delete_frame(sequence, &ids)?;
        Ok(StagedDelete { sequence, ids, frame })
    }

    /// Ends a deletion by what became of its frame: where it was logged the IDs
    /// are deleted, where it was not nothing is changed.
    pub fn settle_delete(&mut self, staged: StagedDelete, logged: Result<()>) -> (result: Result<
        u64,
    >)
        requires
            old(self).wf(),
            exists|after: PersistedView| staged.leads(old(self)@, after),
        ensures
            final(self).wf(),
            match logged {
                Ok(_) => staged.leads(old(self)@, final(self)@) && result == Ok::<u64, Error>(
                    final(self)@.collection.sequence,
                ),
                Err(error) => result == Err::<u64, Error>(error) && final(self)@ == old(self)@,
            },
    {
        match logged {
            Err(error) => Err(error),
            Ok(_) => {
                let sequence: u64 = staged.sequence;
                proof {
                    lemma_without_points(self.inner@.points, views(staged.ids@));
                }
                self.inner.apply_delete_at(&staged.ids, sequence);
                add_ids(&mut self.dirty_ids, &staged.ids);
                Ok(sequence)
            },
        }
    }

    /// Deletes IDs as one commit, and returns its sequence. `append` puts the
    /// frame into the log; only when it has done so are the IDs deleted. It is asked
    /// for nothing but the frame of the commit, and only where there is one.
    pub fn delete<A: FnOnce(&Vec<u8>) -> Result<()>>(
        &mut self,
        ids: Vec<String>,
        append: A,
    ) -> (result: Result<u64>)
        requires
            old(self).wf(),
            forall|frame: &Vec<u8>|
                (delete_commit(old(self)@, views(ids@)) matches Ok(commit) && frame@
                    == commit.frame) ==> #[trigger] append.requires((frame,)),
        ensures
            final(self).wf(),
            match delete_commit(old(self)@, views(ids@)) {
                Err(error) => result is Err && result->Err_0@ == error && final(self)@ == old(
                    self)@,
                Ok(commit) => exists|frame: &Vec<u8>, logged: Result<()>| #[trigger]
                    append.ensures((frame,), logged) && frame@ == commit.frame && match logged {
                        Ok(_) => final(self)@ == commit.after && result == Ok::<u64, Error>(
                            commit.after.collection.sequence,
                        ),
                        Err(error) => final(self)@ == old(self)@ && result == Err::<u64, Error>(
                            error,
                        ),
                    },
            },
    {
        let staged = self.stage_delete(ids)?;
        let logged = append(&staged.frame);
        assert(append.ensures((&staged.frame,), logged));
        self.settle_delete(staged, logged)
    }
}

/// A log keeps the configuration of the collection, and brings in no point newer
/// than its last commit.
proof fn lemma_recovered_config<K: Kernel>(
    kernel: K,
    collection: CollectionView,
    dirty: Set<Seq<char>>,
    log: Seq<u8>,
    at: int,
)
    ensures
        recovered(kernel, collection, dirty, log, at) matches Ok(recovery) ==> {
            &&& recovery.collection.config == collection.config
            &&& collection.no_newer() ==> recovery.collection.no_newer()
        },
    decreases log.len() - at,
{
    let rest = log.len() - at;
    if at < 0 || rest < 8 || log.subrange(at, at + 4) != wal::wal_magic() {
    } else {
        let length = crate::bytes::le_value(log.subrange(at + 4, at + 8)) as int;
        if length > wal::MAX_FRAME_BYTES || rest < 12 + length {
        } else {
            let payload = log.subrange(at + 8, at + 8 + length);
            match wal::replayed(kernel, collection, payload) {
                Err(error) => {},
                Ok(replay) => {
                    lemma_replayed_no_newer(kernel, collection, payload);
                    lemma_recovered_config(
                        kernel,
                        replay.collection,
                        dirty.union(replay.changed.to_set()),
                        log,
                        at + 12 + length,
                    );
                },
            }
        }
    }
}

proof fn lemma_replayed_no_newer<K: Kernel>(
    kernel: K,
    collection: CollectionView,
    payload: Seq<u8>,
)
    requires
        wal::replayed(kernel, collection, payload) is Ok,
    ensures
        collection.no_newer() ==> wal::replayed(kernel, collection, payload)->Ok_0.collection.no_newer(),
{
    let after = wal::replayed(kernel, collection, payload)->Ok_0;
    let operation = number(Format::Record, payload, 0, 1)->Ok_0;
    let (stated, at) = number(Format::Record, payload, operation.1, 8)->Ok_0;
    lemma_byte_ranges();
    lemma_le_value_bound(payload.subrange(operation.1, operation.1 + 8));
    if collection.no_newer() && stated > collection.sequence {
        let sequence = stated as u64;
        if operation.0 == 1 {
            let (count, next) = record::parse_count(payload, at)->Ok_0;
            let raw = repeated(
                wal::point_step(payload, collection.config.dimension),
                next,
                count,
            )->Ok_0.0;
            let batch = prepared_batch(kernel, collection.config, raw, sequence)->Ok_0;
            lemma_prepared_each(kernel, collection.config, raw, sequence);
            assert forall|i: int| 0 <= i < batch.len() implies (#[trigger] batch[i]).sequence
                <= sequence by {
                assert(prepared_point(kernel, collection.config, raw[i], sequence) is Ok);
            }
            lemma_with_points_no_newer(collection.points, batch, sequence);
        } else {
            lemma_without_points(collection.points, after.changed);
        }
    }
}

/// The points behind the results of a graph search, without the changed ones and
/// those that the filter keeps out. A result without a point is damage of the place
/// that the points are kept in.
pub open spec fn graph_part(
    points: Map<Seq<char>, PointView>,
    dirty: Set<Seq<char>>,
    filter: Option<&Filter>,
    place: Seq<char>,
    hits: Seq<Ranked>,
) -> core::result::Result<Seq<HitView>, ErrorView>
    decreases hits.len(),
{
    if hits.len() == 0 {
        Ok(seq![])
    } else {
        match graph_part(points, dirty, filter, place, hits.drop_last()) {
            Err(error) => Err(error),
            Ok(done) => {
                let hit = hits.last();
                if dirty.contains(hit.id) {
                    Ok(done)
                } else if !points.contains_key(hit.id) {
                    corrupt("HNSW point "@ + hit.id + " is missing from "@ + place)
                } else if !admits(filter, points[hit.id].metadata) {
                    Ok(done)
                } else {
                    Ok(
                        done.push(
                            HitView {
                                id: hit.id,
                                score: hit.score,
                                metadata: points[hit.id].metadata,
                                sequence: points[hit.id].sequence,
                            },
                        ),
                    )
                }
            },
        }
    }
}

proof fn lemma_graph_part_error(
    points: Map<Seq<char>, PointView>,
    dirty: Set<Seq<char>>,
    filter: Option<&Filter>,
    place: Seq<char>,
    hits: Seq<Ranked>,
    count: int,
)
    requires
        0 <= count <= hits.len(),
        graph_part(points, dirty, filter, place, hits.subrange(0, count)) is Err,
    ensures
        graph_part(points, dirty, filter, place, hits) == graph_part(
            points,
            dirty,
            filter,
            place,
            hits.subrange(0, count),
        ),
    decreases hits.len() - count,
{
    if count == hits.len() {
        assert(hits.subrange(0, count) =~= hits);
    } else {
        assert(hits.subrange(0, count + 1).drop_last() =~= hits.subrange(0, count));
        lemma_graph_part_error(points, dirty, filter, place, hits, count + 1);
    }
}

/// The sum of two sizes, as far as a size can be.
pub open spec fn sum_up_to_max(a: nat, b: nat) -> usize {
    if a + b > usize::MAX {
        usize::MAX
    } else {
        (a + b) as usize
    }
}

/// The number of results that the graph is asked for: `k` may all be changed ones.
pub open spec fn graph_share(k: usize, dirty: nat, count: nat) -> usize {
    let wanted = sum_up_to_max(k as nat, dirty);
    if wanted <= count {
        wanted
    } else {
        count as usize
    }
}

/// The larger of two sizes.
pub open spec fn larger(a: usize, b: usize) -> usize {
    if a < b {
        b
    } else {
        a
    }
}

/// The results that the graph contributes to a search.
pub open spec fn graph_results<K: Kernel>(
    kernel: K,
    v: PersistedView,
    graph: GraphView,
    place: Seq<char>,
    query: Seq<u32>,
    k: usize,
    ef_search: usize,
) -> core::result::Result<Seq<HitView>, ErrorView> {
    let share = graph_share(k, v.dirty.len(), graph.nodes.len());
    if share == 0 {
        Ok(seq![])
    } else {
        match graph_query(kernel, graph, query, share, larger(ef_search, share)) {
            Err(error) => Err(error),
            Ok(q) => graph_part(
                v.collection.points,
                v.dirty,
                None,
                place,
                graph_hits(kernel, graph, q, share, larger(ef_search, share)),
            ),
        }
    }
}

/// The IDs that a filtered search has to look at: those of the segment that the
/// filter admits, and all changed ones.
pub open spec fn filter_candidates(v: PersistedView, filter: Filter) -> Set<Seq<char>> {
    match v.catalog {
        None => v.collection.points.dom(),
        Some(catalog) => matching(catalog, filter).difference(v.dirty).union(v.dirty),
    }
}

/// A result as a search over given IDs has it.
pub open spec fn exact_result<K: Kernel>(
    kernel: K,
    v: PersistedView,
    query: Seq<u32>,
    k: usize,
    ids: Set<Seq<char>>,
    filter: Option<&Filter>,
    result: Result<Vec<SearchHit>>,
) -> bool {
    match accepted_query(kernel, v.collection.config, query, k) {
        Err(error) => result is Err && result->Err_0@ == error,
        Ok(q) => result is Ok && found(
            kernel,
            v.collection.config.metric,
            v.collection.points,
            q,
            ids,
            filter,
            k as nat,
            views(result->Ok_0@),
        ),
    }
}

/// A result as a search through the graph has it: what the graph gives of the
/// unchanged points, and the best of the changed ones, put together.
pub open spec fn approximate_result<K: Kernel>(
    kernel: K,
    v: PersistedView,
    graph: GraphView,
    place: Seq<char>,
    query: Seq<u32>,
    k: usize,
    ef_search: usize,
    result: Result<Vec<SearchHit>>,
) -> bool {
    match graph_results(kernel, v, graph, place, query, k, ef_search) {
        Err(error) => result is Err && result->Err_0@ == error,
        Ok(front) => match accepted_query(kernel, v.collection.config, query, k) {
            Err(error) => result is Err && result->Err_0@ == error,
            Ok(q) => result is Ok && completed(kernel, v, q, k, None, front, result->Ok_0@),
        },
    }
}

/// `merged` is what results of the graph give together with the changed points.
pub open spec fn completed<K: Kernel>(
    kernel: K,
    v: PersistedView,
    query: Seq<u32>,
    k: usize,
    filter: Option<&Filter>,
    front: Seq<HitView>,
    merged: Seq<SearchHit>,
) -> bool {
    exists|hits: Seq<SearchHit>, back: Seq<HitView>| #[trigger]
        put_together(kernel, v, query, k, filter, front, hits, back, merged)
}

/// `merged` is made of `hits`: `front` and, behind it, `back`, the best of the
/// changed points.
pub open spec fn put_together<K: Kernel>(
    kernel: K,
    v: PersistedView,
    query: Seq<u32>,
    k: usize,
    filter: Option<&Filter>,
    front: Seq<HitView>,
    hits: Seq<SearchHit>,
    back: Seq<HitView>,
    merged: Seq<SearchHit>,
) -> bool {
    &&& found(
        kernel,
        v.collection.config.metric,
        v.collection.points,
        query,
        v.dirty,
        filter,
        k as nat,
        back,
    )
    &&& views(hits) == front + back
    &&& merge_of(hits, k, merged)
}

/// A result as a search of a persistent collection has it.
pub open spec fn search_result<K: Kernel>(
    kernel: K,
    v: PersistedView,
    query: Seq<u32>,
    k: usize,
    filter: Option<&Filter>,
    ef_search: usize,
    result: Result<Vec<SearchHit>>,
) -> bool {
    if ef_search < k {
        result is Err && result->Err_0@ == ErrorView::InvalidQuery("ef_search must be at least k"@)
    } else {
        match filter {
            Some(f) => exact_result(
                kernel,
                v,
                query,
                k,
                filter_candidates(v, *f),
                filter,
                result,
            ),
            None => match v.graph {
                None => exact_result(
                    kernel,
                    v,
                    query,
                    k,
                    v.collection.points.dom(),
                    None,
                    result,
                ),
                Some(graph) => approximate_result(
                    kernel,
                    v,
                    graph,
                    "its segment"@,
                    query,
                    k,
                    ef_search,
                    result,
                ),
            },
        }
    }
}

pub(crate) proof fn lemma_parts_merge<K: Kernel>(
    kernel: K,
    metric: crate::metric::Metric,
    points: Map<Seq<char>, PointView>,
    query: Seq<u32>,
    first_ids: Set<Seq<char>>,
    second_ids: Set<Seq<char>>,
    filter: Option<&Filter>,
    k: usize,
    first: Seq<SearchHit>,
    second: Seq<SearchHit>,
    merged: Seq<SearchHit>,
)
    requires
        k > 0,
        first_ids.disjoint(second_ids),
        found(kernel, metric, points, query, first_ids, filter, k as nat, views(first)),
        found(kernel, metric, points, query, second_ids, filter, k as nat, views(second)),
        merge_of(first + second, k, merged),
    ensures
        found(
            kernel,
            metric,
            points,
            query,
            first_ids.union(second_ids),
            filter,
            k as nat,
            views(merged),
        ),
{
    let hits = first + second;
    let a = ranks(views(first));
    let b = ranks(views(second));
    let pool_a = pool(kernel, metric, points, query, first_ids, filter);
    let pool_b = pool(kernel, metric, points, query, second_ids, filter);
    crate::ranking::lemma_descending_distinct(a);
    crate::ranking::lemma_descending_distinct(b);
    assert forall|i: int, j: int| 0 <= i < j < hits.len() implies (#[trigger] hits[i]).id@ != (
    #[trigger] hits[j]).id@ by {
        if j < first.len() {
            assert(hits[i] == first[i] && hits[j] == first[j]);
            assert(pool_a.contains(a[i]) && pool_a.contains(a[j]));
            assert(a[i] != a[j]);
        } else if i >= first.len() {
            let x = i - first.len();
            let y = j - first.len();
            assert(hits[i] == second[x] && hits[j] == second[y]);
            assert(pool_b.contains(b[x]) && pool_b.contains(b[y]));
            assert(b[x] != b[y]);
        } else {
            let y = j - first.len();
            assert(hits[i] == first[i] && hits[j] == second[y]);
            assert(pool_a.contains(a[i]) && pool_b.contains(b[y]));
        }
    }
    law_merge_keeps_the_best(hits, k, merged);
    let parts = seq![a, b];
    let pools = seq![pool_a, pool_b];
    let gathered = Set::new(
        |r: Ranked| exists|i: int| 0 <= i < parts.len() && (#[trigger] parts[i]).contains(r),
    );
    let whole = Set::new(
        |r: Ranked| exists|i: int| 0 <= i < pools.len() && (#[trigger] pools[i]).contains(r),
    );
    assert(rank_set(hits) =~= gathered) by {
        assert forall|r: Ranked| rank_set(hits).contains(r) <==> gathered.contains(r) by {
            if rank_set(hits).contains(r) {
                let x = choose|x: int| 0 <= x < hits.len() && (#[trigger] hits[x])@.rank() == r;
                if x < first.len() {
                    assert(a[x] == r);
                    assert(parts[0].contains(r));
                } else {
                    assert(b[x - first.len()] == r);
                    assert(parts[1].contains(r));
                }
            }
            if gathered.contains(r) {
                let i = choose|i: int| 0 <= i < parts.len() && (#[trigger] parts[i]).contains(r);
                if i == 0 {
                    let x = choose|x: int| 0 <= x < a.len() && a[x] == r;
                    assert(hits[x]@.rank() == r);
                } else {
                    let x = choose|x: int| 0 <= x < b.len() && b[x] == r;
                    assert(hits[first.len() + x]@.rank() == r);
                }
            }
        }
    }
    assert forall|i: int| 0 <= i < parts.len() implies best_of(
        #[trigger] parts[i],
        pools[i],
        k as nat,
    ) by {}
    crate::ranking::law_merged_parts_are_the_whole(parts, pools, ranks(views(merged)), k as nat);
    let both = pool(kernel, metric, points, query, first_ids.union(second_ids), filter);
    assert(whole =~= both) by {
        assert forall|r: Ranked| whole.contains(r) <==> both.contains(r) by {
            if both.contains(r) {
                if first_ids.contains(r.id) {
                    assert(pools[0].contains(r));
                } else {
                    assert(pools[1].contains(r));
                }
            }
            if whole.contains(r) {
                let i = choose|i: int| 0 <= i < pools.len() && (#[trigger] pools[i]).contains(r);
            }
        }
    }
    assert forall|i: int| 0 <= i < views(merged).len() implies points.contains_key(
        (#[trigger] views(merged)[i]).id,
    ) && views(merged)[i].metadata == points[views(merged)[i].id].metadata
        && views(merged)[i].sequence == points[views(merged)[i].id].sequence by {
        assert(hits.contains(merged[i]));
        let x = choose|x: int| 0 <= x < hits.len() && hits[x] == merged[i];
        if x < first.len() {
            assert(views(first)[x] == merged[i]@);
        } else {
            assert(views(second)[x - first.len()] == merged[i]@);
        }
    }
}

/// The points behind the results of a graph search, without the changed ones and
/// those that the filter keeps out.
pub(crate) fn resolve(
    collection: &Collection,
    dirty_ids: &IdSet,
    filter: Option<&Filter>,
    place: &str,
    hits: &Vec<HnswHit>,
) -> (result: Result<Vec<SearchHit>>)
    requires
        collection.wf(),
        dirty_ids.wf(),
    ensures
        match graph_part(collection@.points, dirty_ids@, filter, place@, views(hits@)) {
            Ok(part) => result is Ok && views(result->Ok_0@) == part,
            Err(error) => result is Err && result->Err_0@ == error,
        },
{
    let ghost all = views(hits@);
    let ghost points = collection@.points;
    let ghost dirty = dirty_ids@;
    let mut found: Vec<SearchHit> = Vec::new();
    let mut i: usize = 0;
    proof {
        assert(all.subrange(0, 0) =~= Seq::empty());
        assert(views(found@) =~= Seq::empty());
    }
    while i < hits.len()
        invariant
            i <= hits@.len(),
            collection.wf(),
            dirty_ids.wf(),
            all == views(hits@),
            points == collection@.points,
            dirty == dirty_ids@,
            graph_part(points, dirty, filter, place@, all.subrange(0, i as int)) == Ok::<
                Seq<HitView>,
                ErrorView,
            >(views(found@)),
        decreases hits.len() - i,
    {
        let ghost next = all.subrange(0, i + 1);
        let ghost before = found@;
        proof {
            assert(next.drop_last() =~= all.subrange(0, i as int));
            assert(next.last() == hits@[i as int]@);
            if graph_part(points, dirty, filter, place@, next) is Err {
                lemma_graph_part_error(points, dirty, filter, place@, all, i + 1);
            }
        }
        let hit = &hits[i];
        if !dirty_ids.contains(hit.id.as_str()) {
            match collection.get(hit.id.as_str()) {
                None => {
                    let mut message = join("HNSW point ", hit.id.as_str());
                    message.append(" is missing from ");
                    message.append(place);
                    return Err(Error::CorruptStorage(message));
                },
                Some(point) => {
                    let admitted: bool = match filter {
                        Some(f) => f.matches(&point.metadata),
                        None => true,
                    };
                    if admitted {
                        let shown = SearchHit {
                            id: hit.id.clone(),
                            score: hit.score,
                            metadata: point.metadata.clone(),
                            sequence: point.sequence,
                        };
                        let ghost value = shown@;
                        found.push(shown);
                        assert(views(found@) =~= views(before).push(value));
                    }
                },
            }
        }
        i = i + 1;
    }
    assert(all.subrange(0, i as int) =~= all);
    Ok(found)
}

impl PersistentCollection {
    fn search_filtered<K: Kernel>(
        &self,
        kernel: &K,
        query: Vec<u32>,
        k: usize,
        filter: &Filter,
        metadata_index: &MetadataIndex,
    ) -> (result: Result<Vec<SearchHit>>)
        requires
            self.wf(),
            lawful(*kernel),
            metadata_index.wf(),
            self@.catalog == Some(metadata_index@),
        ensures
            exact_result(
                *kernel,
                self@,
                query@,
                k,
                filter_candidates(self@, *filter),
                Some(filter),
                result,
            ),
    {
        let candidates = metadata_index.candidates(filter);
        let unchanged = candidates.compared(&self.dirty_ids, false);
        let copy = crate::collection::copy_vector(&query);
        let mut hits = self.inner.search_ids(kernel, copy, k, &unchanged, Some(filter))?;
        let mut changed = self.inner.search_ids(
            kernel,
            query,
            k,
            &self.dirty_ids,
            Some(filter),
        )?;
        let ghost first = hits@;
        let ghost second = changed@;
        hits.append(&mut changed);
        let merged = merge_hits(hits, k);
        proof {
            let q = accepted_query(*kernel, self@.collection.config, query@, k)->Ok_0;
            lemma_parts_merge(
                *kernel,
                self@.collection.config.metric,
                self@.collection.points,
                q,
                unchanged@,
                self@.dirty,
                Some(filter),
                k,
                first,
                second,
                merged@,
            );
            assert(unchanged@.union(self@.dirty) =~= filter_candidates(self@, *filter));
        }
        Ok(merged)
    }

    fn search_graph<K: Kernel>(
        &self,
        kernel: &K,
        query: Vec<u32>,
        k: usize,
        ef_search: usize,
        index: &HnswIndex,
    ) -> (result: Result<Vec<SearchHit>>)
        requires
            self.wf(),
            lawful(*kernel),
            index.wf(),
        ensures
            approximate_result(
                *kernel,
                self@,
                index@,
                "its segment"@,
                query@,
                k,
                ef_search,
                result,
            ),
    {
        let pending: usize = self.dirty_ids.len();
        let wanted: usize = if pending > usize::MAX - k {
            usize::MAX
        } else {
            k + pending
        };
        let share: usize = if wanted <= index.len() {
            wanted
        } else {
            index.len()
        };
        let mut hits: Vec<SearchHit> = Vec::new();
        assert(views(hits@) =~= Seq::empty());
        if share > 0 {
            let ef: usize = if ef_search < share {
                share
            } else {
                ef_search
            };
            let copy = crate::collection::copy_vector(&query);
            let near = index.search(kernel, copy, share, ef)?;
            hits = resolve(&self.inner, &self.dirty_ids, None, "its segment", &near)?;
        }
        let ghost front = hits@;
        let ghost part = graph_results(
            *kernel,
            self@,
            index@,
            "its segment"@,
            query@,
            k,
            ef_search,
        );
        assert(part is Ok);
        assert(part->Ok_0 =~= views(front));
        let mut changed = self.inner.search_ids(kernel, query, k, &self.dirty_ids, None)?;
        let ghost back = changed@;
        hits.append(&mut changed);
        let ghost all = hits@;
        let merged = merge_hits(hits, k);
        proof {
            assert(views(all) =~= views(front) + views(back));
            let q = accepted_query(*kernel, self@.collection.config, query@, k)->Ok_0;
            assert(put_together(
                *kernel,
                self@,
                q,
                k,
                None,
                views(front),
                all,
                views(back),
                merged@,
            ));
            assert(completed(*kernel, self@, q, k, None, part->Ok_0, merged@));
        }
        Ok(merged)
    }

    /// The `k` best points: exact where there is a filter or no graph, else by a
    /// graph search of breadth `ef_search` together with the changed points.
    pub fn search_with_ef<K: Kernel>(
        &self,
        kernel: &K,
        query: Vec<u32>,
        k: usize,
        filter: Option<&Filter>,
        ef_search: usize,
    ) -> (result: Result<Vec<SearchHit>>)
        requires
            self.wf(),
            lawful(*kernel),
        ensures
            search_result(*kernel, self@, query@, k, filter, ef_search, result),
    {
        if ef_search < k {
            return Err(Error::InvalidQuery("ef_search must be at least k"));
        }
        match filter {
            Some(f) => match &self.metadata_index {
                None => self.inner.search(kernel, query, k, Some(f)),
                Some(metadata_index) => self.search_filtered(kernel, query, k, f, metadata_index),
            },
            None => match &self.index {
                None => self.inner.search(kernel, query, k, None),
                Some(index) => self.search_graph(kernel, query, k, ef_search, index),
            },
        }
    }

    /// The `k` best points, with a breadth that follows from `k`.
    pub fn search<K: Kernel>(
        &self,
        kernel: &K,
        query: Vec<u32>,
        k: usize,
        filter: Option<&Filter>,
    ) -> (result: Result<Vec<SearchHit>>)
        requires
            self.wf(),
            lawful(*kernel),
        ensures
            search_result(*kernel, self@, query@, k, filter, default_breadth(k), result),
    {
        let four: usize = if k > usize::MAX / 4 {
            usize::MAX
        } else {
            k * 4
        };
        let breadth: usize = if four < 96 {
            96
        } else {
            four
        };
        self.search_with_ef(kernel, query, k, filter, breadth)
    }
}

/// The breadth of a search where none is asked for: four times `k`, at least 96.
pub open spec fn default_breadth(k: usize) -> usize {
    let four = if 4 * k > usize::MAX {
        usize::MAX
    } else {
        (4 * k) as usize
    };
    larger(four, 96)
}

/// The breadth of a search where none is asked for is never too small: at least what is
/// asked for, and at least 96. It grows with what is asked for, fourfold.
pub proof fn law_default_breadth_is_enough(k: usize)
    ensures
        default_breadth(k) >= k,
        default_breadth(k) >= 96,
        24 < k && 4 * k <= usize::MAX ==> default_breadth(k) == 4 * k,
{
}

/// A segment that is loaded is one of the collection: it was written with its settings and
/// at the sequence that the manifest names, and holds no point that is newer. Nothing of
/// it counts as changed.
pub proof fn law_loaded_segments_belong_to_the_collection(
    config: CollectionConfig,
    sequence: u64,
    bytes: Seq<u8>,
    id: Seq<char>,
)
    ensures
        loaded(config, sequence, bytes) matches Ok(v) ==> {
            &&& parse_segment(bytes) is Ok
            &&& parse_segment(bytes)->Ok_0.config == config
            &&& parse_segment(bytes)->Ok_0.sequence == sequence
            &&& v.collection.config == config
            &&& v.collection.sequence == sequence
            &&& v.dirty == Set::<Seq<char>>::empty()
            &&& v.graph == Some(parse_segment(bytes)->Ok_0.graph)
            &&& v.collection.points.contains_key(id) ==> v.collection.points[id].sequence
                <= sequence && v.collection.points[id].id == id
        },
{
    if loaded(config, sequence, bytes) is Ok {
        let v = loaded(config, sequence, bytes)->Ok_0;
        let points = parse_segment(bytes)->Ok_0.points;
        crate::collection::law_restoring_takes_back_every_point(points, sequence);
        if v.collection.points.contains_key(id) {
            let i = choose|i: int| 0 <= i < points.len() && (#[trigger] points[i]).id == id;
            assert(points[i].sequence <= sequence);
        }
    }
}

} // verus!
