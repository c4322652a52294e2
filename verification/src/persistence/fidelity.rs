//! Why the scores of a graph's results are those of the points that a collection holds.
use crate::collection::{listing, prepared_batch, CollectionView, PointView, UpsertView};
use crate::error::ErrorView;
use crate::hnsw::laws::law_built_graph_holds_its_points;
use crate::hnsw::model::{built, GraphView, HnswConfig};
use crate::metric::{lawful, prepared, Kernel};
use crate::persistence::consistency::{lemma_deleted_beside, lemma_written_beside, same_beside};
use crate::persistence::flush::{
    flushed, graph_points, published, segment_graph_config, snapshot_of, PreparedView,
    SnapshotView,
};
use crate::persistence::unfiltered::faithful;
use crate::persistence::{delete_commit, upsert_commit, PersistedView};
use vstd::prelude::*;

verus! {

/// Preparing a stored vector once more changes nothing. So it is of every vector that is
/// stored as it came, and of a normalised one wherever normalising it again leaves it as
/// it is.
pub open spec fn steady<K: Kernel>(kernel: K, c: CollectionView) -> bool {
    forall|id: Seq<char>| #[trigger]
        c.points.contains_key(id) ==> prepared(kernel, c.config.metric, c.points[id].vector)
            == Ok::<Seq<u32>, ErrorView>(c.points[id].vector)
}

/// A graph that was built of all points has their vectors.
pub(crate) proof fn lemma_built_is_faithful<K: Kernel>(
    kernel: K,
    v: PersistedView,
    config: HnswConfig,
    list: Seq<PointView>,
    graph: GraphView,
)
    requires
        lawful(kernel),
        list.len() <= usize::MAX,
        listing(v.collection.points, list),
        steady(kernel, v.collection),
        built(
            kernel,
            v.collection.config.dimension,
            v.collection.config.metric,
            config,
            graph_points(list),
        ) == Ok::<GraphView, ErrorView>(graph),
    ensures
        faithful(v, graph),
{
    let c = v.collection;
    law_built_graph_holds_its_points(
        kernel,
        c.config.dimension,
        c.config.metric,
        config,
        graph_points(list),
    );
    assert forall|i: int|
        0 <= i < graph.nodes.len() && !v.dirty.contains(
            (#[trigger] graph.nodes[i]).id,
        ) implies graph.nodes[i].vector == c.points[graph.nodes[i].id].vector by {
        assert(graph.nodes[i].id == graph_points(list)[i].0);
        assert(c.points.contains_key(list[i].id));
        assert(c.points[list[i].id] == list[i]);
    }
}

/// What stays the same outside of the changed points leaves a graph faithful.
pub(crate) proof fn lemma_stays_faithful(v: PersistedView, after: PersistedView, graph: GraphView)
    requires
        faithful(v, graph),
        crate::persistence::in_step(v),
        v.graph == Some(graph),
        after.collection.config == v.collection.config,
        v.dirty.subset_of(after.dirty),
        same_beside(after.collection.points, v.collection.points, after.dirty),
    ensures
        faithful(after, graph),
{
    assert forall|i: int|
        0 <= i < graph.nodes.len() && !after.dirty.contains(
            (#[trigger] graph.nodes[i]).id,
        ) implies graph.nodes[i].vector == after.collection.points[graph.nodes[i].id].vector by {
        let id = graph.nodes[i].id;
        assert(!v.dirty.contains(id));
        assert(crate::hnsw::graph_ids(graph).contains(id));
        assert(v.collection.points.contains_key(id));
        assert(after.collection.points.contains_key(id) == v.collection.points.contains_key(id));
    }
}

/// The graph that a flush publishes has the vectors of the points that the collection
/// holds.
pub proof fn law_flushed_graphs_are_faithful<K: Kernel>(
    kernel: K,
    v: PersistedView,
    snapshot: SnapshotView,
    segment: PreparedView,
)
    requires
        lawful(kernel),
        snapshot_of(v, snapshot),
        snapshot.points.len() <= usize::MAX,
        steady(kernel, v.collection),
        flushed(kernel, snapshot) == Ok::<PreparedView, ErrorView>(segment),
    ensures
        faithful(published(v, segment), segment.graph),
{
    lemma_built_is_faithful(
        kernel,
        published(v, segment),
        segment_graph_config(),
        snapshot.points,
        segment.graph,
    );
}

/// A write leaves the graph faithful: the points whose vectors it does not have count as
/// changed.
pub proof fn law_upserts_leave_the_graph_faithful<K: Kernel>(
    kernel: K,
    v: PersistedView,
    graph: GraphView,
    batch: Seq<UpsertView>,
)
    requires
        crate::persistence::in_step(v),
        v.graph == Some(graph),
        faithful(v, graph),
        upsert_commit(kernel, v, batch) is Ok,
    ensures
        upsert_commit(kernel, v, batch)->Ok_0.after.graph == Some(graph),
        faithful(upsert_commit(kernel, v, batch)->Ok_0.after, graph),
{
    let after = upsert_commit(kernel, v, batch)->Ok_0.after;
    let sequence = (v.collection.sequence + 1) as u64;
    let points = prepared_batch(kernel, v.collection.config, batch, sequence)->Ok_0;
    lemma_written_beside(v.collection.points, points);
    lemma_stays_faithful(v, after, graph);
}

/// A deletion leaves the graph faithful.
pub proof fn law_deletions_leave_the_graph_faithful(
    v: PersistedView,
    graph: GraphView,
    ids: Seq<Seq<char>>,
)
    requires
        crate::persistence::in_step(v),
        v.graph == Some(graph),
        faithful(v, graph),
        delete_commit(v, ids) is Ok,
    ensures
        delete_commit(v, ids)->Ok_0.after.graph == Some(graph),
        faithful(delete_commit(v, ids)->Ok_0.after, graph),
{
    let after = delete_commit(v, ids)->Ok_0.after;
    lemma_deleted_beside(v.collection.points, ids);
    lemma_stays_faithful(v, after, graph);
}

} // verus!
