//! Searching a shard.
//!
//! A graph answers for the points that have not changed since it was built; the
//! changed ones are searched exactly. A filter that admits few points is answered
//! exactly; one that admits many by asking the graph for more and more.
use crate::collection::{
    accepted_query, copy_vector, found, listing, views, Collection, CollectionConfig,
    CollectionView, HitView, Point, PointView, SearchHit,
};
use crate::error::{Error, ErrorView, Result};
use crate::filter::Filter;
use crate::hits::merge_hits;
use crate::hnsw::model::GraphView;
use crate::hnsw::{graph_hits, graph_query, HnswIndex};
use crate::ids::IdSet;
use crate::metadata_index::{matching, Catalog, MetadataIndex};
use crate::metric::{lawful, Kernel};
use crate::persistence::{
    approximate_result, completed, exact_result, graph_part, graph_results, in_step, larger,
    lemma_parts_merge, put_together, resolve, sum_up_to_max, PersistedView,
};
use crate::raft_state_machine::laws::law_reindexed_is_in_step;
use crate::raft_state_machine::model::{indexed, reindexed, ShardView};
use crate::raft_state_machine::{build_indexes, DurableShardStateMachine};
use crate::raft_storage::LogId;
use vstd::prelude::*;

verus! {

/// The fewest changed points that are worth a new graph.
pub const MIN_REINDEXED_POINTS: usize = 256;

/// A new graph is due when one point in so many has changed.
pub const REINDEX_DIRTY_DIVISOR: usize = 5;

/// Whether a new graph is due.
pub open spec fn reindex_due(has_index: bool, dirty: nat, count: nat) -> bool {
    &&& dirty >= MIN_REINDEXED_POINTS
    &&& !has_index || REINDEX_DIRTY_DIVISOR * dirty >= count
}

/// Whether a new graph is due.
fn should_rebuild_index(has_index: bool, dirty_count: usize, point_count: usize) -> (due: bool)
    ensures
        due == reindex_due(has_index, dirty_count as nat, point_count as nat),
{
    if dirty_count < MIN_REINDEXED_POINTS {
        return false;
    }
    if !has_index {
        return true;
    }
    let share: usize = point_count / REINDEX_DIRTY_DIVISOR;
    let enough: usize = if point_count % REINDEX_DIRTY_DIVISOR == 0 {
        share
    } else {
        share + 1
    };
    dirty_count >= enough
}

/// What indexing a shard anew, where it is due, comes to.
pub open spec fn refreshed<K: Kernel>(
    kernel: K,
    before: ShardView,
    after: ShardView,
    result: Result<()>,
) -> bool {
    let data = before.data;
    if !reindex_due(data.graph is Some, data.dirty.len(), data.collection.points.len()) {
        after == before && result is Ok
    } else {
        exists|list: Seq<PointView>| #[trigger]
            listing(data.collection.points, list) && match indexed(
                kernel,
                data.collection.config,
                list,
            ) {
                Ok((graph, catalog)) => result is Ok && after == reindexed(before, graph, catalog),
                Err(error) => after == before && result is Err && result->Err_0@ == error,
            }
    }
}

/// The points that a new graph is built of.
pub struct RefreshPlan {
    config: CollectionConfig,
    sequence: u64,
    points: Vec<Point>,
}

/// A new graph and metadata index, and the sequence that they are of.
pub struct Refresh {
    sequence: u64,
    index: HnswIndex,
    metadata_index: MetadataIndex,
}

impl RefreshPlan {
    /// The points.
    pub closed spec fn listed(&self) -> Seq<PointView> {
        views(self.points@)
    }

    /// The shape of the points.
    pub closed spec fn shape(&self) -> CollectionConfig {
        self.config
    }

    /// The sequence of the last commit.
    pub closed spec fn as_of(&self) -> u64 {
        self.sequence
    }

    /// Made of what a shard holds.
    pub open spec fn made_of(&self, shard: ShardView) -> bool {
        &&& listing(shard.data.collection.points, self.listed())
        &&& self.shape() == shard.data.collection.config
        &&& self.as_of() == shard.data.collection.sequence
    }

    /// Builds the graph and the metadata index.
    pub fn build<K: Kernel>(self, kernel: &K) -> (result: Result<Refresh>)
        requires
            lawful(*kernel),
        ensures
            match indexed(*kernel, self.shape(), self.listed()) {
                Ok((graph, catalog)) => {
                    &&& result is Ok
                    &&& result->Ok_0.as_of() == self.as_of()
                    &&& result->Ok_0.graph() == graph
                    &&& result->Ok_0.catalog() == catalog
                    &&& result->Ok_0.wf(self.shape())
                    &&& forall|shard: ShardView| #[trigger]
                        self.made_of(shard) ==> result->Ok_0.is_of(shard.data.collection)
                },
                Err(error) => result is Err && result->Err_0@ == error,
            },
    {
        proof {
            assert(self.points.len() <= usize::MAX);
            if indexed(*kernel, self.shape(), self.listed()) is Ok {
                assert forall|shard: ShardView| #[trigger] self.made_of(shard) implies {
                    let (graph, catalog) = indexed(*kernel, self.shape(), self.listed())->Ok_0;
                    in_step(reindexed(shard, graph, catalog).data)
                } by {
                    law_reindexed_is_in_step(*kernel, shard, self.listed());
                }
            }
        }
        let (index, metadata_index) = build_indexes(kernel, self.config, &self.points)?;
        Ok(Refresh { sequence: self.sequence, index, metadata_index })
    }
}

impl Refresh {
    /// The sequence that the graph is of.
    pub closed spec fn as_of(&self) -> u64 {
        self.sequence
    }

    /// The graph.
    pub closed spec fn graph(&self) -> GraphView {
        self.index@
    }

    /// The metadata by ID.
    pub closed spec fn catalog(&self) -> Catalog {
        self.metadata_index@
    }

    /// Of what a collection holds: with this graph and metadata index and nothing
    /// changed since, it is in step.
    pub open spec fn is_of(&self, collection: CollectionView) -> bool {
        in_step(
            PersistedView {
                collection,
                dirty: Set::empty(),
                graph: Some(self.graph()),
                catalog: Some(self.catalog()),
            },
        )
    }

    /// Of the right shape.
    pub closed spec fn wf(&self, config: CollectionConfig) -> bool {
        &&& self.index.wf()
        &&& self.index@.dimension == config.dimension
        &&& self.index@.metric == config.metric
        &&& self.metadata_index.wf()
    }
}

/// Where the points of a shard are kept.
pub open spec fn shard_place() -> Seq<char> {
    "the Raft state machine"@
}

/// Whether a filter admits so few of the indexed points that they are searched
/// one by one.
pub open spec fn is_narrow(candidates: nat, k: usize, count: nat) -> bool {
    4 * candidates < count || candidates <= 16 * k || candidates <= 256
}

/// The number of results that the graph is first asked for where a filter admits
/// many points.
pub open spec fn first_width(k: usize, ef_search: usize, dirty: nat, count: nat) -> usize {
    let eight = if 8 * k > usize::MAX {
        usize::MAX
    } else {
        (8 * k) as usize
    };
    let wanted = sum_up_to_max(larger(ef_search, eight) as nat, dirty);
    if wanted <= count {
        wanted
    } else {
        count as usize
    }
}

/// Twice as many, as far as there are.
pub open spec fn doubled(width: usize, count: nat) -> usize {
    if 2 * width <= count {
        (2 * width) as usize
    } else {
        count as usize
    }
}

/// What the graph gives of the points that a filter admits, when it is asked for
/// `width` results, then for twice as many, until there are `k` or it is exhausted.
pub open spec fn widened<K: Kernel>(
    kernel: K,
    v: PersistedView,
    graph: GraphView,
    query: Seq<u32>,
    k: usize,
    filter: Filter,
    ef_search: usize,
    width: usize,
) -> core::result::Result<Seq<HitView>, ErrorView>
    decreases graph.nodes.len() - width,
    when graph.nodes.len() <= usize::MAX
{
    if width == 0 {
        Ok(seq![])
    } else {
        match graph_query(kernel, graph, query, width, larger(ef_search, width)) {
            Err(error) => Err(error),
            Ok(q) => match graph_part(
                v.collection.points,
                v.dirty,
                Some(&filter),
                shard_place(),
                graph_hits(kernel, graph, q, width, larger(ef_search, width)),
            ) {
                Err(error) => Err(error),
                Ok(hits) => if hits.len() >= k || width >= graph.nodes.len() {
                    Ok(hits)
                } else {
                    widened(
                        kernel,
                        v,
                        graph,
                        query,
                        k,
                        filter,
                        ef_search,
                        doubled(width, graph.nodes.len()),
                    )
                },
            },
        }
    }
}

/// What is put before the changed points: what the graph gave and, where that is
/// too little, the best of all that the filter admits.
pub open spec fn topped_up<K: Kernel>(
    kernel: K,
    v: PersistedView,
    candidates: Set<Seq<char>>,
    query: Seq<u32>,
    k: usize,
    filter: Filter,
    given: Seq<HitView>,
    front: Seq<HitView>,
) -> bool {
    if given.len() >= k {
        front == given
    } else {
        exists|more: Seq<HitView>| #[trigger]
            found(
                kernel,
                v.collection.config.metric,
                v.collection.points,
                query,
                candidates,
                Some(&filter),
                k as nat,
                more,
            ) && front == given + more
    }
}

/// The unchanged points that a filter admits.
pub open spec fn unchanged_candidates(v: PersistedView, catalog: Catalog, filter: Filter) -> Set<
    Seq<char>,
> {
    matching(catalog, filter).difference(v.dirty)
}

/// A result as a search with a filter that admits many points has it.
pub open spec fn broad_result<K: Kernel>(
    kernel: K,
    v: PersistedView,
    graph: GraphView,
    candidates: Set<Seq<char>>,
    query: Seq<u32>,
    k: usize,
    filter: Filter,
    ef_search: usize,
    result: Result<Vec<SearchHit>>,
) -> bool {
    match widened(
        kernel,
        v,
        graph,
        query,
        k,
        filter,
        ef_search,
        first_width(k, ef_search, v.dirty.len(), graph.nodes.len()),
    ) {
        Err(error) => result is Err && result->Err_0@ == error,
        Ok(given) => match accepted_query(kernel, v.collection.config, query, k) {
            Err(error) => result is Err && result->Err_0@ == error,
            Ok(q) => result is Ok && exists|front: Seq<HitView>| #[trigger]
                topped_up(kernel, v, candidates, q, k, filter, given, front) && completed(
                    kernel,
                    v,
                    q,
                    k,
                    Some(&filter),
                    front,
                    result->Ok_0@,
                ),
        },
    }
}

/// A result as a search of an indexed shard has it.
pub open spec fn shard_result<K: Kernel>(
    kernel: K,
    v: PersistedView,
    query: Seq<u32>,
    k: usize,
    filter: Option<&Filter>,
    ef_search: usize,
    result: Result<Vec<SearchHit>>,
) -> bool {
    match (v.graph, filter, v.catalog) {
        (None, _, _) => exact_result(
            kernel,
            v,
            query,
            k,
            v.collection.points.dom(),
            filter,
            result,
        ),
        (Some(graph), None, _) => approximate_result(
            kernel,
            v,
            graph,
            shard_place(),
            query,
            k,
            ef_search,
            result,
        ),
        (Some(_), Some(_), None) => exact_result(
            kernel,
            v,
            query,
            k,
            v.collection.points.dom(),
            filter,
            result,
        ),
        (Some(graph), Some(f), Some(catalog)) => {
            let candidates = unchanged_candidates(v, catalog, *f);
            if is_narrow(candidates.len(), k, graph.nodes.len()) {
                exact_result(kernel, v, query, k, candidates.union(v.dirty), filter, result)
            } else {
                broad_result(kernel, v, graph, candidates, query, k, *f, ef_search, result)
            }
        },
    }
}

/// The breadth of a search where none is asked for: sixteen times `k`, at least 256.
pub open spec fn shard_breadth(k: usize) -> usize {
    let sixteen = if 16 * k > usize::MAX {
        usize::MAX
    } else {
        (16 * k) as usize
    };
    larger(sixteen, 256)
}

fn times(k: usize, factor: usize) -> (product: usize)
    requires
        factor > 0,
    ensures
        product == if factor * k > usize::MAX {
            usize::MAX as int
        } else {
            factor * k
        },
{
    match k.checked_mul(factor) {
        Some(product) => {
            assert(factor * k == k * factor) by (nonlinear_arith);
            product
        },
        None => {
            assert(factor * k == k * factor) by (nonlinear_arith);
            usize::MAX
        },
    }
}

impl DurableShardStateMachine {
    /// What a new graph is to be built of, where one is due.
    pub fn plan_refresh(&self) -> (plan: Option<RefreshPlan>)
        requires
            self.wf(),
        ensures
            plan is Some == reindex_due(
                self@.data.graph is Some,
                self@.data.dirty.len(),
                self@.data.collection.points.len(),
            ),
            plan matches Some(p) ==> p.made_of(self@),
    {
        if !should_rebuild_index(
            self.index.is_some(),
            self.dirty_ids.len(),
            self.collection.len(),
        ) {
            return None;
        }
        Some(
            RefreshPlan {
                config: self.config,
                sequence: self.collection.latest_sequence(),
                points: self.collection.snapshot_points(),
            },
        )
    }

    /// Takes over a new graph, unless the shard has changed since it was planned.
    pub fn settle_refresh(&mut self, refresh: Refresh)
        requires
            old(self).wf(),
            refresh.wf(old(self)@.data.collection.config),
        ensures
            final(self).wf(),
            final(self)@ == if refresh.as_of() == old(self)@.data.collection.sequence {
                reindexed(old(self)@, refresh.graph(), refresh.catalog())
            } else {
                old(self)@
            },
            (if refresh.as_of() == old(self)@.data.collection.sequence {
                refresh.is_of(old(self)@.data.collection)
            } else {
                in_step(old(self)@.data)
            }) ==> in_step(final(self)@.data),
    {
        if self.collection.latest_sequence() == refresh.sequence {
            self.index = Some(refresh.index);
            self.metadata_index = Some(refresh.metadata_index);
            self.dirty_ids.clear();
        }
    }

    /// Builds a new graph and metadata index, where they are due.
    pub fn refresh_index_if_needed<K: Kernel>(&mut self, kernel: &K) -> (result: Result<()>)
        requires
            old(self).wf(),
            lawful(*kernel),
        ensures
            final(self).wf(),
            in_step(old(self)@.data) ==> in_step(final(self)@.data),
            refreshed(*kernel, old(self)@, final(self)@, result),
    {
        let plan = match self.plan_refresh() {
            None => {
                return Ok(());
            },
            Some(plan) => plan,
        };
        let ghost list = plan.listed();
        assert(listing(self@.data.collection.points, list));
        assert(plan.made_of(self@));
        let refresh = plan.build(kernel)?;
        self.settle_refresh(refresh);
        Ok(())
    }

    fn search_narrow<K: Kernel>(
        &self,
        kernel: &K,
        query: Vec<u32>,
        k: usize,
        filter: &Filter,
        candidates: &IdSet,
    ) -> (result: Result<Vec<SearchHit>>)
        requires
            self.wf(),
            lawful(*kernel),
            candidates.wf(),
            candidates@.disjoint(self@.data.dirty),
        ensures
            exact_result(
                *kernel,
                self@.data,
                query@,
                k,
                candidates@.union(self@.data.dirty),
                Some(filter),
                result,
            ),
    {
        let copy = copy_vector(&query);
        let mut hits = self.collection.search_ids(kernel, copy, k, candidates, Some(filter))?;
        let mut changed = self.collection.search_ids(
            kernel,
            query,
            k,
            &self.dirty_ids,
            Some(filter),
        )?;
        let ghost first = hits@;
        let ghost second = changed@;
        hits.append(&mut changed);
        let merged = merge_hits(hits, k);
        proof {
            let v = self@.data;
            let q = accepted_query(*kernel, v.collection.config, query@, k)->Ok_0;
            lemma_parts_merge(
                *kernel,
                v.collection.config.metric,
                v.collection.points,
                q,
                candidates@,
                v.dirty,
                Some(filter),
                k,
                first,
                second,
                merged@,
            );
        }
        Ok(merged)
    }

    fn widen<K: Kernel>(
        &self,
        kernel: &K,
        index: &HnswIndex,
        query: &Vec<u32>,
        k: usize,
        filter: &Filter,
        ef_search: usize,
        width: usize,
    ) -> (result: Result<Vec<SearchHit>>)
        requires
            self.wf(),
            lawful(*kernel),
            index.wf(),
            width <= index@.nodes.len(),
        ensures
            match widened(
                *kernel,
                self@.data,
                index@,
                query@,
                k,
                *filter,
                ef_search,
                width,
            ) {
                Ok(given) => result is Ok && views(result->Ok_0@) == given,
                Err(error) => result is Err && result->Err_0@ == error,
            },
    {
        let ghost whole = widened(
            *kernel,
            self@.data,
            index@,
            query@,
            k,
            *filter,
            ef_search,
            width,
        );
        let mut hits: Vec<SearchHit> = Vec::new();
        assert(views(hits@) =~= Seq::empty());
        let count: usize = index.len();
        let mut wide: usize = width;
        if wide == 0 {
            return Ok(hits);
        }
        loop
            invariant
                self.wf(),
                lawful(*kernel),
                index.wf(),
                count == index@.nodes.len(),
                0 < wide <= count,
                whole == widened(
                    *kernel,
                    self@.data,
                    index@,
                    query@,
                    k,
                    *filter,
                    ef_search,
                    wide,
                ),
                whole == widened(
                    *kernel,
                    self@.data,
                    index@,
                    query@,
                    k,
                    *filter,
                    ef_search,
                    width,
                ),
            decreases count - wide,
        {
            let ef: usize = if ef_search < wide {
                wide
            } else {
                ef_search
            };
            let near = index.search(kernel, copy_vector(query), wide, ef)?;
            hits = resolve(
                &self.collection,
                &self.dirty_ids,
                Some(filter),
                "the Raft state machine",
                &near,
            )?;
            if hits.len() >= k || wide == count {
                return Ok(hits);
            }
            wide = if wide > count / 2 {
                count
            } else {
                2 * wide
            };
        }
    }

    fn search_broad<K: Kernel>(
        &self,
        kernel: &K,
        index: &HnswIndex,
        query: Vec<u32>,
        k: usize,
        filter: &Filter,
        candidates: &IdSet,
        ef_search: usize,
    ) -> (result: Result<Vec<SearchHit>>)
        requires
            self.wf(),
            lawful(*kernel),
            index.wf(),
            candidates.wf(),
        ensures
            broad_result(
                *kernel,
                self@.data,
                index@,
                candidates@,
                query@,
                k,
                *filter,
                ef_search,
                result,
            ),
    {
        let count: usize = index.len();
        let eight: usize = times(k, 8);
        let most: usize = if ef_search < eight {
            eight
        } else {
            ef_search
        };
        let pending: usize = self.dirty_ids.len();
        let wanted: usize = if pending > usize::MAX - most {
            usize::MAX
        } else {
            most + pending
        };
        let width: usize = if wanted <= count {
            wanted
        } else {
            count
        };
        let mut hits = self.widen(kernel, index, &query, k, filter, ef_search, width)?;
        let ghost given = views(hits@);
        let ghost v = self@.data;
        let ghost metric = v.collection.config.metric;
        if hits.len() < k {
            let mut more = self.collection.search_ids(
                kernel,
                copy_vector(&query),
                k,
                candidates,
                Some(filter),
            )?;
            let ghost extra = views(more@);
            hits.append(&mut more);
            assert(views(hits@) =~= given + extra);
        }
        let ghost front = views(hits@);
        let mut changed = self.collection.search_ids(
            kernel,
            query,
            k,
            &self.dirty_ids,
            Some(filter),
        )?;
        let ghost back = views(changed@);
        hits.append(&mut changed);
        let ghost all = hits@;
        let merged = merge_hits(hits, k);
        proof {
            assert(views(all) =~= front + back);
            let q = accepted_query(*kernel, v.collection.config, query@, k)->Ok_0;
            assert(topped_up(*kernel, v, candidates@, q, k, *filter, given, front));
            assert(put_together(*kernel, v, q, k, Some(filter), front, all, back, merged@));
            assert(completed(*kernel, v, q, k, Some(filter), front, merged@));
        }
        Ok(merged)
    }

    fn search_unfiltered<K: Kernel>(
        &self,
        kernel: &K,
        index: &HnswIndex,
        query: Vec<u32>,
        k: usize,
        ef_search: usize,
    ) -> (result: Result<Vec<SearchHit>>)
        requires
            self.wf(),
            lawful(*kernel),
            index.wf(),
        ensures
            approximate_result(
                *kernel,
                self@.data,
                index@,
                shard_place(),
                query@,
                k,
                ef_search,
                result,
            ),
    {
        let pending: usize = self.dirty_ids.len();
        let wanted: usize = if pending > usize::MAX - k {
            usize::MAX
        } else {
            k + pending
        };
        let share: usize = if wanted <= index.len() {
            wanted
        } else {
            index.len()
        };
        let mut hits: Vec<SearchHit> = Vec::new();
        assert(views(hits@) =~= Seq::empty());
        if share > 0 {
            let ef: usize = if ef_search < share {
                share
            } else {
                ef_search
            };
            let near = index.search(kernel, copy_vector(&query), share, ef)?;
            hits = resolve(
                &self.collection,
                &self.dirty_ids,
                None,
                "the Raft state machine",
                &near,
            )?;
        }
        let ghost v = self@.data;
        let ghost front = hits@;
        let ghost part = graph_results(*kernel, v, index@, shard_place(), query@, k, ef_search);
        assert(part is Ok);
        assert(part->Ok_0 =~= views(front));
        let mut changed = self.collection.search_ids(kernel, query, k, &self.dirty_ids, None)?;
        let ghost back = changed@;
        hits.append(&mut changed);
        let ghost all = hits@;
        let merged = merge_hits(hits, k);
        proof {
            assert(views(all) =~= views(front) + views(back));
            let q = accepted_query(*kernel, v.collection.config, query@, k)->Ok_0;
            assert(put_together(
                *kernel,
                v,
                q,
                k,
                None,
                views(front),
                all,
                views(back),
                merged@,
            ));
            assert(completed(*kernel, v, q, k, None, part->Ok_0, merged@));
        }
        Ok(merged)
    }

    /// The `k` best points by what is indexed now.
    pub fn search_indexed<K: Kernel>(
        &self,
        kernel: &K,
        query: Vec<u32>,
        k: usize,
        filter: Option<&Filter>,
        ef_search: usize,
    ) -> (result: Result<Vec<SearchHit>>)
        requires
            self.wf(),
            lawful(*kernel),
        ensures
            shard_result(*kernel, self@.data, query@, k, filter, ef_search, result),
    {
        let index = match &self.index {
            None => {
                return self.collection.search(kernel, query, k, filter);
            },
            Some(index) => index,
        };
        let f = match filter {
            None => {
                return self.search_unfiltered(kernel, index, query, k, ef_search);
            },
            Some(f) => f,
        };
        let metadata_index = match &self.metadata_index {
            None => {
                return self.collection.search(kernel, query, k, filter);
            },
            Some(metadata_index) => metadata_index,
        };
        let admitted = metadata_index.candidates(f);
        let candidates = admitted.compared(&self.dirty_ids, false);
        let count: usize = candidates.len();
        let narrow: bool = times(count, 4) < index.len() || count <= times(k, 16) || count <= 256;
        assert(narrow == is_narrow(candidates@.len(), k, index@.nodes.len()));
        if narrow {
            self.search_narrow(kernel, query, k, f, &candidates)
        } else {
            self.search_broad(kernel, index, query, k, f, &candidates, ef_search)
        }
    }

    /// The `k` best points. Where a new graph is due it is built first.
    pub fn search_with_ef<K: Kernel>(
        &mut self,
        kernel: &K,
        query: Vec<u32>,
        k: usize,
        filter: Option<&Filter>,
        ef_search: usize,
    ) -> (result: Result<Vec<SearchHit>>)
        requires
            old(self).wf(),
            lawful(*kernel),
        ensures
            final(self).wf(),
            in_step(old(self)@.data) ==> in_step(final(self)@.data),
            shard_search(
                *kernel,
                old(self)@,
                final(self)@,
                query@,
                k,
                filter,
                ef_search,
                result,
            ),
    {
        if ef_search < k {
            return Err(Error::InvalidQuery("ef_search must be at least k"));
        }
        let ghost before = self@;
        let outcome = self.refresh_index_if_needed(kernel);
        assert(refreshed(*kernel, before, self@, outcome));
        match outcome {
            Err(error) => {
                return Err(error);
            },
            Ok(_) => {},
        }
        self.search_indexed(kernel, query, k, filter, ef_search)
    }

    /// The breadth of a search where none is asked for.
    pub fn breadth_for(k: usize) -> (breadth: usize)
        ensures
            breadth == shard_breadth(k),
    {
        let sixteen: usize = times(k, 16);
        if sixteen < 256 {
            256
        } else {
            sixteen
        }
    }

    /// The `k` best points, with a breadth that follows from `k`.
    pub fn search<K: Kernel>(
        &mut self,
        kernel: &K,
        query: Vec<u32>,
        k: usize,
        filter: Option<&Filter>,
    ) -> (result: Result<Vec<SearchHit>>)
        requires
            old(self).wf(),
            lawful(*kernel),
        ensures
            final(self).wf(),
            in_step(old(self)@.data) ==> in_step(final(self)@.data),
            shard_search(
                *kernel,
                old(self)@,
                final(self)@,
                query@,
                k,
                filter,
                shard_breadth(k),
                result,
            ),
    {
        self.search_with_ef(
            kernel,
            query,
            k,
            filter,
            DurableShardStateMachine::breadth_for(k),
        )
    }

    /// The points in memory.
    pub fn collection(&self) -> (collection: &Collection)
        requires
            self.wf(),
        ensures
            collection@ == self@.data.collection,
            collection.wf(),
    {
        &self.collection
    }

    /// Whether a graph serves the searches.
    pub fn has_approximate_index(&self) -> (has: bool)
        ensures
            has == (self@.data.graph is Some),
    {
        self.index.is_some()
    }

    /// The number of IDs changed since the graph was built.
    pub fn pending_point_count(&self) -> (count: usize)
        requires
            self.wf(),
        ensures
            count == self@.data.dirty.len(),
    {
        self.dirty_ids.len()
    }

    /// The index of the last applied entry.
    pub fn applied_index(&self) -> (index: Option<u64>)
        ensures
            index == match self@.last_applied {
                Some(log_id) => Some(log_id.index),
                None => None,
            },
    {
        match self.last_applied {
            Some(log_id) => Some(log_id.index),
            None => None,
        }
    }

    /// How far the log is applied, and the members as of then.
    pub fn applied_state(&self) -> (state: (
        Option<LogId>,
        crate::raft_state_machine::model::StoredMembership,
    ))
        ensures
            state.0 == self@.last_applied,
            state.1@ == self@.membership,
    {
        (self.last_applied, self.membership.clone())
    }

    /// The number of points.
    pub fn len(&self) -> (length: usize)
        requires
            self.wf(),
        ensures
            length == self@.data.collection.points.len(),
    {
        self.collection.len()
    }

    /// Whether there are no points.
    pub fn is_empty(&self) -> (empty: bool)
        requires
            self.wf(),
        ensures
            empty == (self@.data.collection.points.len() == 0),
    {
        self.collection.is_empty()
    }
}

/// A result and a shard as a search leaves them.
pub open spec fn shard_search<K: Kernel>(
    kernel: K,
    before: ShardView,
    after: ShardView,
    query: Seq<u32>,
    k: usize,
    filter: Option<&Filter>,
    ef_search: usize,
    result: Result<Vec<SearchHit>>,
) -> bool {
    if ef_search < k {
        after == before && result is Err && result->Err_0@ == ErrorView::InvalidQuery(
            "ef_search must be at least k"@,
        )
    } else {
        exists|outcome: Result<()>| #[trigger]
            refreshed(kernel, before, after, outcome) && match outcome {
                Err(error) => result is Err && result->Err_0@ == error@,
                Ok(_) => shard_result(kernel, after.data, query, k, filter, ef_search, result),
            }
    }
}

/// The breadth of a search of a shard where none is asked for is never too small: at least
/// what is asked for, and at least 256. It grows with what is asked for, sixteenfold.
pub proof fn law_shard_breadth_is_enough(k: usize)
    ensures
        shard_breadth(k) >= k,
        shard_breadth(k) >= 256,
        16 < k && 16 * k <= usize::MAX ==> shard_breadth(k) == 16 * k,
{
}

/// A graph is built anew only once 256 points have changed: then at once where there is
/// none, and otherwise when one point in five has changed. So a shard that was indexed
/// just now is not due, and more changes never make it less due.
pub proof fn law_reindexing_waits_for_changes(
    has_index: bool,
    dirty: nat,
    more: nat,
    count: nat,
)
    ensures
        !reindex_due(has_index, 0, count),
        dirty < 256 ==> !reindex_due(has_index, dirty, count),
        dirty >= 256 ==> reindex_due(false, dirty, count),
        dirty >= 256 && dirty >= count ==> reindex_due(has_index, dirty, count),
        5 * dirty < count ==> !reindex_due(true, dirty, count),
        dirty >= 256 && 5 * dirty == count ==> reindex_due(has_index, dirty, count),
        dirty <= more && reindex_due(has_index, dirty, count) ==> reindex_due(
            has_index,
            more,
            count,
        ),
{
}

/// A search with a broad filter starts wide: it first asks the graph for all that it has,
/// or for at least as many as its breadth and eight times `k`, and as many more as points
/// have changed. Asked again, it asks for more, up to all.
pub proof fn law_broad_searches_start_wide(
    k: usize,
    ef_search: usize,
    dirty: nat,
    count: nat,
    width: usize,
)
    requires
        count <= usize::MAX,
        8 * k + ef_search + dirty <= usize::MAX,
    ensures
        first_width(k, ef_search, dirty, count) <= count,
        first_width(k, ef_search, dirty, count) == count || first_width(
            k,
            ef_search,
            dirty,
            count,
        ) >= 8 * k + dirty && first_width(k, ef_search, dirty, count) >= ef_search + dirty,
        0 < width < count ==> width < doubled(width, count) <= count && (doubled(width, count)
            == count || doubled(width, count) >= 2 * width),
{
}

} // verus!
