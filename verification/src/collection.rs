//! Points in memory, with exact search.
use crate::error::{outcome, Error, ErrorView, Result};
use crate::filter::Filter;
use crate::ids::IdSet;
use crate::metadata::{ascending, Entries, Metadata};
use crate::metric::{
    law_only_cosine_changes_vectors, lawful, prepared, scored, Kernel, Metric,
};
use crate::ranking::{
    best_of, better, descending, is_better, lemma_better_total, lemma_better_transitive, Ranked,
};
use crate::sort::{sort, Sortable};
use crate::table::Table;
use crate::text::{
    compare_text, lemma_text_irreflexive, lemma_text_total, lemma_text_transitive, text_at_most,
    text_less, Order,
};
use vstd::prelude::*;

verus! {

/// The shape of a collection.
#[derive(Debug, Clone, Copy, PartialEq, Eq, Structural)]
pub struct CollectionConfig {
    pub dimension: usize,
    pub metric: Metric,
}

/// A point to be stored.
#[derive(Debug, PartialEq)]
pub struct UpsertPoint {
    pub id: String,
    pub vector: Vec<u32>,
    pub metadata: Metadata,
}

/// A stored point: its vector as prepared for the metric, and the commit that wrote it.
#[derive(Debug, PartialEq)]
pub struct Point {
    pub id: String,
    pub vector: Vec<u32>,
    pub metadata: Metadata,
    pub sequence: u64,
}

/// A search result.
#[derive(Debug, PartialEq)]
pub struct SearchHit {
    pub id: String,
    /// A metric-independent score, as the bits of a single, where larger is better.
    pub score: u32,
    pub metadata: Metadata,
    pub sequence: u64,
}

/// A point to be written, as contracts see it.
pub struct UpsertView {
    pub id: Seq<char>,
    pub vector: Seq<u32>,
    pub metadata: Entries,
}

/// A stored point, as contracts see it.
pub struct PointView {
    pub id: Seq<char>,
    pub vector: Seq<u32>,
    pub metadata: Entries,
    pub sequence: u64,
}

/// A result, as contracts see it.
pub struct HitView {
    pub id: Seq<char>,
    pub score: u32,
    pub metadata: Entries,
    pub sequence: u64,
}

impl View for UpsertPoint {
    type V = UpsertView;

    open spec fn view(&self) -> UpsertView {
        UpsertView { id: self.id@, vector: self.vector@, metadata: self.metadata@ }
    }
}

impl View for Point {
    type V = PointView;

    open spec fn view(&self) -> PointView {
        PointView {
            id: self.id@,
            vector: self.vector@,
            metadata: self.metadata@,
            sequence: self.sequence,
        }
    }
}

impl View for SearchHit {
    type V = HitView;

    open spec fn view(&self) -> HitView {
        HitView {
            id: self.id@,
            score: self.score,
            metadata: self.metadata@,
            sequence: self.sequence,
        }
    }
}

impl HitView {
    /// What decides the result's place.
    pub open spec fn rank(self) -> Ranked {
        Ranked { score: self.score, id: self.id }
    }
}

/// A copy of a vector.
pub fn copy_vector(vector: &Vec<u32>) -> (copy: Vec<u32>)
    ensures
        copy@ == vector@,
{
    let copy = vector.clone();
    assert(copy@ =~= vector@);
    copy
}

impl Clone for UpsertPoint {
    fn clone(&self) -> (copy: UpsertPoint)
        ensures
            copy@ == self@,
    {
        UpsertPoint {
            id: self.id.clone(),
            vector: copy_vector(&self.vector),
            metadata: self.metadata.clone(),
        }
    }
}

impl Clone for SearchHit {
    fn clone(&self) -> (copy: SearchHit)
        ensures
            copy@ == self@,
    {
        SearchHit {
            id: self.id.clone(),
            score: self.score,
            metadata: self.metadata.clone(),
            sequence: self.sequence,
        }
    }
}

impl Clone for Point {
    fn clone(&self) -> (copy: Point)
        ensures
            copy@ == self@,
    {
        Point {
            id: self.id.clone(),
            vector: copy_vector(&self.vector),
            metadata: self.metadata.clone(),
            sequence: self.sequence,
        }
    }
}

/// The views of a sequence of values.
pub open spec fn views<T: View>(items: Seq<T>) -> Seq<T::V> {
    Seq::new(items.len(), |i: int| items[i]@)
}

/// What decides the places of results.
pub open spec fn ranks(hits: Seq<HitView>) -> Seq<Ranked> {
    Seq::new(hits.len(), |i: int| hits[i].rank())
}

/// The points by their IDs.
pub type Points = Map<Seq<char>, PointView>;

/// The stored form of one point, or why it is refused.
pub open spec fn prepared_point<K: Kernel>(
    kernel: K,
    config: CollectionConfig,
    point: UpsertView,
    sequence: u64,
) -> core::result::Result<PointView, ErrorView> {
    if point.vector.len() != config.dimension {
        Err(
            ErrorView::InvalidDimension {
                expected: config.dimension,
                actual: point.vector.len() as usize,
            },
        )
    } else if point.id.len() == 0 {
        Err(ErrorView::InvalidQuery("point ID must not be empty"@))
    } else {
        match prepared(kernel, config.metric, point.vector) {
            Ok(vector) => Ok(
                PointView { id: point.id, vector, metadata: point.metadata, sequence },
            ),
            Err(error) => Err(error),
        }
    }
}

/// The stored forms of points; the first point that is refused decides the error.
pub open spec fn prepared_points<K: Kernel>(
    kernel: K,
    config: CollectionConfig,
    points: Seq<UpsertView>,
    sequence: u64,
) -> core::result::Result<Seq<PointView>, ErrorView>
    decreases points.len(),
{
    if points.len() == 0 {
        Ok(seq![])
    } else {
        match prepared_points(kernel, config, points.drop_last(), sequence) {
            Err(error) => Err(error),
            Ok(done) => match prepared_point(kernel, config, points.last(), sequence) {
                Err(error) => Err(error),
                Ok(point) => Ok(done.push(point)),
            },
        }
    }
}

/// The stored forms of a batch; an empty batch is refused.
pub open spec fn prepared_batch<K: Kernel>(
    kernel: K,
    config: CollectionConfig,
    points: Seq<UpsertView>,
    sequence: u64,
) -> core::result::Result<Seq<PointView>, ErrorView> {
    if points.len() == 0 {
        Err(ErrorView::InvalidQuery("upsert batch must not be empty"@))
    } else {
        prepared_points(kernel, config, points, sequence)
    }
}

/// The points after a batch was written; the last point of an ID stays.
pub open spec fn with_points(points: Points, batch: Seq<PointView>) -> Points
    decreases batch.len(),
{
    if batch.len() == 0 {
        points
    } else {
        with_points(points, batch.drop_last()).insert(batch.last().id, batch.last())
    }
}

/// The points after IDs were deleted.
pub open spec fn without_points(points: Points, ids: Seq<Seq<char>>) -> Points
    decreases ids.len(),
{
    if ids.len() == 0 {
        points
    } else {
        without_points(points, ids.drop_last()).remove(ids.last())
    }
}

/// What a collection holds.
#[verifier::ext_equal]
pub struct CollectionView {
    pub config: CollectionConfig,
    pub points: Points,
    pub sequence: u64,
}

impl CollectionView {
    /// Every point stands under its own ID, fits the configuration, and has its
    /// metadata in order.
    pub open spec fn valid(self) -> bool {
        &&& self.config.dimension > 0
        &&& forall|id: Seq<char>| #[trigger]
            self.points.contains_key(id) ==> sound(self.config, self.points[id])
                && self.points[id].id == id
    }

    /// No point is newer than the last commit.
    pub open spec fn no_newer(self) -> bool {
        forall|id: Seq<char>| #[trigger]
            self.points.contains_key(id) ==> self.points[id].sequence <= self.sequence
    }
}

/// A point with an ID and a vector of the right size.
pub open spec fn fits(config: CollectionConfig, point: PointView) -> bool {
    &&& point.id.len() > 0
    &&& point.vector.len() == config.dimension
}

/// A point of a collection: it fits, and has its metadata in order.
pub open spec fn sound(config: CollectionConfig, point: PointView) -> bool {
    &&& fits(config, point)
    &&& ascending(point.metadata)
}

/// Whether an optional filter lets metadata pass.
pub open spec fn admits(filter: Option<&Filter>, metadata: Entries) -> bool {
    match filter {
        Some(f) => f.holds(metadata),
        None => true,
    }
}

/// The form in which a query is compared, or why it is refused.
pub open spec fn accepted_query<K: Kernel>(
    kernel: K,
    config: CollectionConfig,
    query: Seq<u32>,
    k: usize,
) -> core::result::Result<Seq<u32>, ErrorView> {
    if k == 0 {
        Err(ErrorView::InvalidQuery("k must be greater than zero"@))
    } else if query.len() != config.dimension {
        Err(
            ErrorView::InvalidDimension {
                expected: config.dimension,
                actual: query.len() as usize,
            },
        )
    } else {
        prepared(kernel, config.metric, query)
    }
}

/// The results from which a search may choose: the points among `ids` that the
/// filter admits, each with its score for the query.
pub open spec fn pool<K: Kernel>(
    kernel: K,
    metric: Metric,
    points: Points,
    query: Seq<u32>,
    ids: Set<Seq<char>>,
    filter: Option<&Filter>,
) -> Set<Ranked> {
    Set::new(
        |r: Ranked|
            {
                &&& ids.contains(r.id)
                &&& points.contains_key(r.id)
                &&& admits(filter, points[r.id].metadata)
                &&& r.score == scored(kernel, metric, query, points[r.id].vector)
            },
    )
}

/// Every result shows the metadata and the commit of its point.
pub open spec fn describe(hits: Seq<HitView>, points: Points) -> bool {
    forall|i: int|
        0 <= i < hits.len() ==> points.contains_key((#[trigger] hits[i]).id) && hits[i].metadata
            == points[hits[i].id].metadata && hits[i].sequence == points[hits[i].id].sequence
}

/// `hits` are the `k` best of the points among `ids` that the filter admits.
pub open spec fn found<K: Kernel>(
    kernel: K,
    metric: Metric,
    points: Points,
    query: Seq<u32>,
    ids: Set<Seq<char>>,
    filter: Option<&Filter>,
    k: nat,
    hits: Seq<HitView>,
) -> bool {
    &&& best_of(ranks(hits), pool(kernel, metric, points, query, ids, filter), k)
    &&& describe(hits, points)
}

/// The IDs of points, in order.
pub open spec fn in_id_order(points: Seq<PointView>) -> bool {
    forall|i: int, j: int|
        0 <= i < j < points.len() ==> text_less(#[trigger] points[i].id, #[trigger] points[j].id)
}

/// All points of a map, in the order of their IDs.
pub open spec fn listing(points: Points, list: Seq<PointView>) -> bool {
    &&& in_id_order(list)
    &&& forall|i: int|
        0 <= i < list.len() ==> points.contains_key((#[trigger] list[i]).id) && points[list[i].id]
            == list[i]
    &&& forall|id: Seq<char>| #[trigger]
        points.contains_key(id) ==> exists|i: int| 0 <= i < list.len() && (#[trigger] list[i]).id
            == id
}

impl Sortable for Point {
    open spec fn at_most(a: PointView, b: PointView) -> bool {
        text_at_most(a.id, b.id)
    }

    proof fn lemma_total(a: PointView, b: PointView) {
        lemma_text_total(a.id, b.id);
    }

    proof fn lemma_transitive(a: PointView, b: PointView, c: PointView) {
        if a.id != b.id && b.id != c.id {
            lemma_text_transitive(a.id, b.id, c.id);
        }
    }

    fn is_at_most(&self, other: &Point) -> (r: bool) {
        proof {
            lemma_text_total(self.id@, other.id@);
        }
        compare_text(self.id.as_str(), other.id.as_str()) != Order::Greater
    }
}

/// A candidate of a search.
struct Best<'a> {
    score: u32,
    point: &'a Point,
}

impl<'a> Best<'a> {
    spec fn rank(self) -> Ranked {
        Ranked { score: self.score, id: self.point.id@ }
    }
}

spec fn best_ranks(best: Seq<Best>) -> Seq<Ranked> {
    Seq::new(best.len(), |i: int| best[i].rank())
}

/// The best results stay the best when one more is offered: it is put in its
/// place, and the worst leaves when there are too many.
pub proof fn lemma_offer(
    hits: Seq<Ranked>,
    pool: Set<Ranked>,
    k: nat,
    r: Ranked,
    at: int,
    after: Seq<Ranked>,
)
    requires
        best_of(hits, pool, k),
        !pool.contains(r),
        k > 0,
        0 <= at <= hits.len(),
        forall|i: int| 0 <= i < at ==> better(#[trigger] hits[i], r),
        forall|i: int| at <= i < hits.len() ==> better(r, #[trigger] hits[i]),
        after == if hits.len() < k {
            hits.insert(at, r)
        } else {
            hits.insert(at, r).drop_last()
        },
    ensures
        best_of(after, pool.insert(r), k),
{
    let longer = hits.insert(at, r);
    assert forall|i: int, j: int| 0 <= i < j < longer.len() implies better(
        #[trigger] longer[i],
        #[trigger] longer[j],
    ) by {
        if j < at {
            assert(better(hits[i], hits[j]));
        } else if j > at && i < at {
            assert(better(hits[i], hits[j - 1]));
        } else if i > at {
            assert(better(hits[i - 1], hits[j - 1]));
        }
    }
    assert forall|i: int| 0 <= i < after.len() implies pool.insert(r).contains(
        #[trigger] after[i],
    ) by {
        if i < at {
            assert(after[i] == hits[i]);
        } else if i > at {
            assert(after[i] == hits[i - 1]);
        }
    }
    assert forall|x: Ranked| #[trigger] pool.insert(r).contains(x) implies after.contains(x) || (
    after.len() == k && k > 0 && better(after[k - 1], x)) by {
        if hits.len() < k {
            if x == r {
                assert(longer[at] == r);
            } else {
                assert(hits.contains(x));
                let i = choose|i: int| 0 <= i < hits.len() && hits[i] == x;
                if i < at {
                    assert(longer[i] == x);
                } else {
                    assert(longer[i + 1] == x);
                }
            }
        } else {
            let worst = longer[k as int];
            assert(better(longer[k - 1], worst));
            assert(after[k - 1] == longer[k - 1]);
            if x == r {
                if at < k {
                    assert(after[at] == r);
                }
            } else if hits.contains(x) {
                let i = choose|i: int| 0 <= i < hits.len() && hits[i] == x;
                if i < at {
                    assert(after[i] == x);
                } else if i + 1 < k {
                    assert(after[i + 1] == x);
                } else {
                    assert(longer[i + 1] == x);
                }
            } else {
                assert(better(hits[k - 1], x));
                if at < k {
                    assert(worst == hits[k - 1]);
                    lemma_better_transitive(longer[k - 1], worst, x);
                } else {
                    assert(after[k - 1] == hits[k - 1]);
                }
            }
        }
    }
}

fn offer<'a>(best: &mut Vec<Best<'a>>, k: usize, score: u32, point: &'a Point, Ghost(pool): Ghost<Set<Ranked>>)
    requires
        k > 0,
        best_of(best_ranks(old(best)@), pool, k as nat),
        !pool.contains(Ranked { score, id: point.id@ }),
    ensures
        best_of(
            best_ranks(final(best)@),
            pool.insert(Ranked { score, id: point.id@ }),
            k as nat,
        ),
        forall|i: int|
            0 <= i < final(best)@.len() ==> old(best)@.contains(#[trigger] final(best)@[i])
                || final(best)@[i] == (Best { score, point }),
{
    let ghost r = Ranked { score, id: point.id@ };
    let ghost hits = best_ranks(best@);
    let ghost start = best@;
    let mut at: usize = best.len();
    while at > 0
        invariant_except_break
            at <= best.len(),
            best@ == start,
            hits == best_ranks(best@),
            r == (Ranked { score, id: point.id@ }),
            descending(hits),
            forall|i: int| at <= i < hits.len() ==> better(r, #[trigger] hits[i]),
        ensures
            at <= best.len(),
            best@ == start,
            forall|i: int| at <= i < hits.len() ==> better(r, #[trigger] hits[i]),
            at > 0 ==> !better(r, hits[at - 1]),
        decreases at,
    {
        let other = &best[at - 1];
        assert(hits[at - 1] == other.rank());
        if !is_better(score, point.id.as_str(), other.score, other.point.id.as_str()) {
            break ;
        }
        at = at - 1;
    }
    proof {
        assert forall|i: int| 0 <= i < at implies better(#[trigger] hits[i], r) by {
            assert(pool.contains(hits[at - 1]));
            lemma_better_total(r, hits[at - 1]);
            if i < at - 1 {
                assert(better(hits[i], hits[at - 1]));
                lemma_better_transitive(hits[i], hits[at - 1], r);
            }
        }
    }
    if at < k {
        best.insert(at, Best { score, point });
        assert(best_ranks(best@) =~= hits.insert(at as int, r));
        let ghost longer = best@;
        assert forall|i: int| 0 <= i < longer.len() implies start.contains(#[trigger] longer[i])
            || longer[i] == (Best { score, point }) by {
            if i < at {
                assert(longer[i] == start[i]);
            } else if i > at {
                assert(longer[i] == start[i - 1]);
            }
        }
        if best.len() > k {
            let _ = best.pop();
            assert(best_ranks(best@) =~= hits.insert(at as int, r).drop_last());
        }
    } else {
        assert(best_ranks(best@) =~= hits.insert(at as int, r).drop_last());
    }
    proof {
        lemma_offer(hits, pool, k as nat, r, at as int, best_ranks(best@));
    }
}

/// A collection of points in memory.
pub struct Collection {
    config: CollectionConfig,
    points: Table<Point>,
    sequence: u64,
}

impl View for Collection {
    type V = CollectionView;

    closed spec fn view(&self) -> CollectionView {
        CollectionView { config: self.config, points: self.points@, sequence: self.sequence }
    }
}

/// The part of a pool that the first `count` IDs of an order give.
spec fn pool_upto<K: Kernel>(
    kernel: K,
    metric: Metric,
    points: Points,
    query: Seq<u32>,
    order: Seq<Seq<char>>,
    count: int,
    filter: Option<&Filter>,
) -> Set<Ranked> {
    pool(kernel, metric, points, query, order.subrange(0, count).to_set(), filter)
}

proof fn lemma_pool_upto<K: Kernel>(
    kernel: K,
    metric: Metric,
    points: Points,
    query: Seq<u32>,
    order: Seq<Seq<char>>,
    count: int,
    filter: Option<&Filter>,
)
    requires
        0 <= count < order.len(),
        order.no_duplicates(),
    ensures
        ({
            let id = order[count];
            let before = pool_upto(kernel, metric, points, query, order, count, filter);
            let after = pool_upto(kernel, metric, points, query, order, count + 1, filter);
            if points.contains_key(id) && admits(filter, points[id].metadata) {
                let r = Ranked { score: scored(kernel, metric, query, points[id].vector), id };
                after == before.insert(r) && !before.contains(r)
            } else {
                after == before
            }
        }),
{
    let id = order[count];
    let before = pool_upto(kernel, metric, points, query, order, count, filter);
    let after = pool_upto(kernel, metric, points, query, order, count + 1, filter);
    let head = order.subrange(0, count);
    let next = order.subrange(0, count + 1);
    assert(next =~= head.push(id));
    assert forall|x: Seq<char>| next.to_set().contains(x) <==> head.to_set().contains(x) || x
        == id by {
        if head.contains(x) {
            let i = choose|i: int| 0 <= i < head.len() && head[i] == x;
            assert(next[i] == x);
        }
        if x == id {
            assert(next[count] == x);
        }
        if next.contains(x) {
            let i = choose|i: int| 0 <= i < next.len() && next[i] == x;
            if i < count {
                assert(head[i] == x);
            }
        }
    }
    if head.contains(id) {
        let i = choose|i: int| 0 <= i < head.len() && head[i] == id;
        assert(order[i] == order[count]);
    }
    if points.contains_key(id) && admits(filter, points[id].metadata) {
        let r = Ranked { score: scored(kernel, metric, query, points[id].vector), id };
        assert(after =~= before.insert(r));
    } else {
        assert(after =~= before);
    }
}

impl Collection {
    /// The hash map is consistent and the points are valid.
    pub closed spec fn wf(&self) -> bool {
        &&& self.points.wf()
        &&& self@.valid()
    }

    /// The invariant spelled out.
    pub proof fn lemma_valid(&self)
        requires
            self.wf(),
        ensures
            self@.valid(),
            self@.points.dom().finite(),
    {
        self.points.lemma_keys();
    }

    /// An empty collection.
    pub fn new(config: CollectionConfig) -> (result: Result<Collection>)
        ensures
            match result {
                Ok(collection) => {
                    &&& config.dimension > 0
                    &&& collection.wf()
                    &&& collection@ == (CollectionView {
                        config,
                        points: Map::empty(),
                        sequence: 0,
                    })
                },
                Err(error) => config.dimension == 0 && error@ == ErrorView::InvalidConfig(
                    "dimension must be greater than zero"@,
                ),
            },
    {
        if config.dimension == 0 {
            return Err(Error::InvalidConfig("dimension must be greater than zero"));
        }
        Ok(Collection { config, points: Table::new(), sequence: 0 })
    }

    /// The shape of the collection.
    pub fn config(&self) -> (config: CollectionConfig)
        ensures
            config == self@.config,
    {
        self.config
    }

    /// The number of points.
    pub fn len(&self) -> (length: usize)
        requires
            self.wf(),
        ensures
            length == self@.points.len(),
    {
        self.points.len()
    }

    /// Whether there are no points.
    pub fn is_empty(&self) -> (empty: bool)
        requires
            self.wf(),
        ensures
            empty == (self@.points.len() == 0),
    {
        self.points.len() == 0
    }

    /// The sequence of the last commit.
    pub fn latest_sequence(&self) -> (sequence: u64)
        ensures
            sequence == self@.sequence,
    {
        self.sequence
    }

    /// The point under an ID.
    pub fn get(&self, id: &str) -> (point: Option<&Point>)
        requires
            self.wf(),
        ensures
            match point {
                Some(p) => self@.points.contains_key(id@) && p@ == self@.points[id@],
                None => !self@.points.contains_key(id@),
            },
    {
        self.points.get(id)
    }

    /// The sequence that the next commit gets.
    pub(crate) fn next_sequence(&self) -> (result: Result<u64>)
        ensures
            match result {
                Ok(sequence) => sequence == self@.sequence + 1,
                Err(error) => self@.sequence == u64::MAX && error@ == ErrorView::SequenceOverflow,
            },
    {
        if self.sequence == u64::MAX {
            Err(Error::SequenceOverflow)
        } else {
            Ok(self.sequence + 1)
        }
    }

    /// Validates a batch and brings its points into their stored form. Nothing
    /// is written.
    pub(crate) fn prepare_upsert<K: Kernel>(
        &self,
        kernel: &K,
        points: Vec<UpsertPoint>,
        sequence: u64,
    ) -> (result: Result<Vec<Point>>)
        requires
            lawful(*kernel),
        ensures
            match prepared_batch(*kernel, self@.config, views(points@), sequence) {
                Ok(batch) => {
                    &&& result is Ok
                    &&& views(result->Ok_0@) == batch
                    &&& batch.len() == points@.len()
                    &&& forall|i: int|
                        0 <= i < batch.len() ==> fits(self@.config, #[trigger] batch[i])
                            && batch[i].id == points@[i].id@ && batch[i].sequence == sequence
                },
                Err(error) => result is Err && result->Err_0@ == error,
            },
    {
        if points.len() == 0 {
            return Err(Error::InvalidQuery("upsert batch must not be empty"));
        }
        let ghost all = views(points@);
        let ghost given = points@;
        let ghost config = self@.config;
        let mut done: Vec<Point> = Vec::new();
        let mut rest = points;
        let mut i: usize = 0;
        let total: usize = rest.len();
        // The points are taken from the back of the reversed batch.
        let mut reversed: Vec<UpsertPoint> = Vec::new();
        while rest.len() > 0
            invariant
                rest@.len() + reversed@.len() == given.len(),
                total == given.len(),
                rest@ == given.subrange(0, rest@.len() as int),
                forall|j: int|
                    0 <= j < reversed@.len() ==> #[trigger] reversed@[j] == given[given.len() - 1
                        - j],
            decreases rest.len(),
        {
            match rest.pop() {
                Some(point) => {
                    reversed.push(point);
                },
                None => {},
            }
        }
        proof {
            assert(all.subrange(0, 0) =~= Seq::empty());
            assert(views(done@) =~= Seq::empty());
        }
        while reversed.len() > 0
            invariant
                lawful(*kernel),
                config == self@.config,
                given == points@,
                given.len() > 0,
                total == given.len(),
                all == views(given),
                i + reversed@.len() == total,
                done@.len() == i,
                prepared_points(*kernel, config, all.subrange(0, i as int), sequence) == Ok::<
                    Seq<PointView>,
                    ErrorView,
                >(views(done@)),
                forall|j: int|
                    0 <= j < i ==> fits(config, (#[trigger] done@[j])@) && done@[j].id@
                        == given[j].id@ && done@[j].sequence == sequence,
                forall|j: int|
                    0 <= j < reversed@.len() ==> #[trigger] reversed@[j] == given[given.len() - 1
                        - j],
            decreases reversed.len(),
        {
            let ghost head = all.subrange(0, i as int);
            let ghost next = all.subrange(0, i + 1);
            let ghost before = done@;
            proof {
                assert(next.drop_last() =~= head);
                assert(next.last() == given[i as int]@);
                assert(reversed@[reversed@.len() - 1] == given[i as int]);
            }
            match reversed.pop() {
                None => {},
                Some(point) => {
                    assert(point@ == next.last());
                    if point.vector.len() != self.config.dimension {
                        proof {
                            lemma_prepared_error(*kernel, config, all, i + 1, sequence);
                        }
                        return Err(
                            Error::InvalidDimension {
                                expected: self.config.dimension,
                                actual: point.vector.len(),
                            },
                        );
                    }
                    if point.id.as_str().is_empty() {
                        proof {
                            lemma_prepared_error(*kernel, config, all, i + 1, sequence);
                        }
                        return Err(Error::InvalidQuery("point ID must not be empty"));
                    }
                    match self.config.metric.prepare(kernel, point.vector) {
                        Err(error) => {
                            proof {
                                lemma_prepared_error(*kernel, config, all, i + 1, sequence);
                            }
                            return Err(error);
                        },
                        Ok(vector) => {
                            done.push(
                                Point {
                                    id: point.id,
                                    vector,
                                    metadata: point.metadata,
                                    sequence,
                                },
                            );
                            assert(views(done@) =~= views(before).push(done@.last()@));
                        },
                    }
                },
            }
            i = i + 1;
        }
        assert(all.subrange(0, i as int) =~= all);
        Ok(done)
    }

    /// Writes prepared points as one commit.
    pub(crate) fn apply_prepared_upsert(&mut self, points: Vec<Point>, sequence: u64)
        requires
            old(self).wf(),
            forall|i: int|
                0 <= i < points@.len() ==> fits(
                    old(self)@.config,
                    (#[trigger] points@[i])@,
                ),
        ensures
            final(self).wf(),
            final(self)@ == (CollectionView {
                config: old(self)@.config,
                points: with_points(old(self)@.points, views(points@)),
                sequence,
            }),
    {
        let ghost before = self@;
        self.sequence = sequence;
        let mut i: usize = 0;
        assert(views(points@).subrange(0, 0) =~= Seq::empty());
        while i < points.len()
            invariant
                i <= points.len(),
                self.wf(),
                self@.config == before.config,
                self@.sequence == sequence,
                self.points.wf(),
                self@.points == with_points(before.points, views(points@).subrange(0, i as int)),
                forall|id: Seq<char>| #[trigger]
                    self@.points.contains_key(id) ==> sound(
                        before.config,
                        self@.points[id],
                    ) && self@.points[id].id == id,
                before.config.dimension > 0,
                forall|j: int|
                    0 <= j < points@.len() ==> fits(
                        before.config,
                        (#[trigger] points@[j])@,
                    ),
            decreases points.len() - i,
        {
            let copy = points[i].clone();
            let metadata = &copy.metadata;
            proof {
                use_type_invariant(metadata);
            }
            assert(fits(before.config, points@[i as int]@));
            let name = points[i].id.clone();
            self.points.insert(name, copy);
            proof {
                let head = views(points@).subrange(0, i as int);
                let next = views(points@).subrange(0, i + 1);
                assert(next.drop_last() =~= head);
            }
            i = i + 1;
        }
        assert(views(points@).subrange(0, i as int) =~= views(points@));
    }

    /// Deletes IDs as one commit. Missing IDs change nothing.
    pub(crate) fn apply_delete_at(&mut self, ids: &Vec<String>, sequence: u64)
        requires
            old(self).wf(),
        ensures
            final(self).wf(),
            final(self)@ == (CollectionView {
                config: old(self)@.config,
                points: without_points(old(self)@.points, views(ids@)),
                sequence,
            }),
    {
        let ghost before = self@;
        self.sequence = sequence;
        let mut i: usize = 0;
        assert(views(ids@).subrange(0, 0) =~= Seq::empty());
        while i < ids.len()
            invariant
                i <= ids.len(),
                self.wf(),
                self.points.wf(),
                self@.config == before.config,
                self@.sequence == sequence,
                self@.points == without_points(before.points, views(ids@).subrange(0, i as int)),
            decreases ids.len() - i,
        {
            let ghost held = self@;
            self.points.remove(ids[i].as_str());
            proof {
                let next = views(ids@).subrange(0, i + 1);
                assert(next.drop_last() =~= views(ids@).subrange(0, i as int));
                assert forall|id: Seq<char>| #[trigger]
                    self@.points.contains_key(id) implies sound(
                    self@.config,
                    self@.points[id],
                ) && self@.points[id].id == id by {
                    assert(held.points.contains_key(id));
                }
            }
            i = i + 1;
        }
        assert(views(ids@).subrange(0, i as int) =~= views(ids@));
    }

    /// Validates and writes a batch as one commit, and returns its sequence. A
    /// refused batch changes nothing.
    pub fn upsert<K: Kernel>(&mut self, kernel: &K, points: Vec<UpsertPoint>) -> (result: Result<
        u64,
    >)
        requires
            old(self).wf(),
            lawful(*kernel),
        ensures
            final(self).wf(),
            match upserted(*kernel, old(self)@, views(points@)) {
                Ok(after) => result == Ok::<u64, Error>(after.sequence) && final(self)@ == after,
                Err(error) => result is Err && result->Err_0@ == error && final(self)@
                    == old(self)@,
            },
    {
        let sequence: u64 = self.next_sequence()?;
        let batch = self.prepare_upsert(kernel, points, sequence)?;
        proof {
            assert forall|i: int| 0 <= i < batch@.len() implies fits(
                self@.config,
                (#[trigger] batch@[i])@,
            ) by {
                assert(views(batch@)[i] == batch@[i]@);
            }
        }
        self.apply_prepared_upsert(batch, sequence);
        Ok(sequence)
    }

    /// Deletes IDs as one commit, and returns its sequence. Missing IDs change
    /// nothing.
    pub fn delete(&mut self, ids: &Vec<String>) -> (result: Result<u64>)
        requires
            old(self).wf(),
        ensures
            final(self).wf(),
            match deleted(old(self)@, views(ids@)) {
                Ok(after) => result == Ok::<u64, Error>(after.sequence) && final(self)@ == after,
                Err(error) => result is Err && result->Err_0@ == error && final(self)@
                    == old(self)@,
            },
    {
        let sequence: u64 = self.next_sequence()?;
        self.apply_delete_at(ids, sequence);
        Ok(sequence)
    }

    fn accept_query<K: Kernel>(&self, kernel: &K, query: Vec<u32>, k: usize) -> (result: Result<
        Vec<u32>,
    >)
        requires
            lawful(*kernel),
        ensures
            outcome(result) == accepted_query(*kernel, self@.config, query@, k),
    {
        if k == 0 {
            return Err(Error::InvalidQuery("k must be greater than zero"));
        }
        if query.len() != self.config.dimension {
            return Err(
                Error::InvalidDimension {
                    expected: self.config.dimension,
                    actual: query.len(),
                },
            );
        }
        self.config.metric.prepare(kernel, query)
    }

    /// The `k` best points that the filter admits. The filter is applied before
    /// the ranking.
    pub fn search<K: Kernel>(
        &self,
        kernel: &K,
        query: Vec<u32>,
        k: usize,
        filter: Option<&Filter>,
    ) -> (result: Result<Vec<SearchHit>>)
        requires
            self.wf(),
            lawful(*kernel),
        ensures
            match accepted_query(*kernel, self@.config, query@, k) {
                Ok(q) => result is Ok && found(
                    *kernel,
                    self@.config.metric,
                    self@.points,
                    q,
                    self@.points.dom(),
                    filter,
                    k as nat,
                    views(result->Ok_0@),
                ),
                Err(error) => result is Err && result->Err_0@ == error,
            },
    {
        let query = self.accept_query(kernel, query, k)?;
        let ghost order = self.points.keys();
        let mut best: Vec<Best> = Vec::new();
        let mut i: usize = 0;
        proof {
            self.points.lemma_keys();
            assert(best_ranks(best@) =~= Seq::empty());
            assert(pool_upto(*kernel, self@.config.metric, self@.points, query@, order, 0, filter)
                =~= Set::empty());
        }
        while i < self.points.len()
            invariant
                i <= order.len(),
                order == self.points.keys(),
                order.no_duplicates(),
                self.wf(),
                self.points.wf(),
                lawful(*kernel),
                k > 0,
                best_of(
                    best_ranks(best@),
                    pool_upto(
                        *kernel,
                        self@.config.metric,
                        self@.points,
                        query@,
                        order,
                        i as int,
                        filter,
                    ),
                    k as nat,
                ),
                shown(best@, self@.points),
            decreases order.len() - i,
        {
            let point = self.points.value_at(i);
            proof {
                lemma_pool_upto(
                    *kernel,
                    self@.config.metric,
                    self@.points,
                    query@,
                    order,
                    i as int,
                    filter,
                );
                assert(self@.points.contains_key(order[i as int]));
            }
            let admitted: bool = match filter {
                Some(f) => f.matches(&point.metadata),
                None => true,
            };
            if admitted {
                let score: u32 = self.config.metric.score(kernel, &query, &point.vector);
                offer(
                    &mut best,
                    k,
                    score,
                    point,
                    Ghost(
                        pool_upto(
                            *kernel,
                            self@.config.metric,
                            self@.points,
                            query@,
                            order,
                            i as int,
                            filter,
                        ),
                    ),
                );
            }
            i = i + 1;
        }
        proof {
            assert(order.subrange(0, i as int) =~= order);
            assert(order.to_set() =~= self@.points.dom());
        }
        Ok(hits_of(&best, Ghost(self@.points)))
    }

    /// The `k` best points among `ids` that the filter admits. IDs without a
    /// point are passed over.
    pub(crate) fn search_ids<K: Kernel>(
        &self,
        kernel: &K,
        query: Vec<u32>,
        k: usize,
        ids: &IdSet,
        filter: Option<&Filter>,
    ) -> (result: Result<Vec<SearchHit>>)
        requires
            self.wf(),
            ids.wf(),
            lawful(*kernel),
        ensures
            match accepted_query(*kernel, self@.config, query@, k) {
                Ok(q) => result is Ok && found(
                    *kernel,
                    self@.config.metric,
                    self@.points,
                    q,
                    ids@,
                    filter,
                    k as nat,
                    views(result->Ok_0@),
                ),
                Err(error) => result is Err && result->Err_0@ == error,
            },
    {
        let query = self.accept_query(kernel, query, k)?;
        let ghost order = ids.order();
        let mut best: Vec<Best> = Vec::new();
        let mut i: usize = 0;
        proof {
            ids.lemma_order();
            assert(best_ranks(best@) =~= Seq::empty());
            assert(pool_upto(*kernel, self@.config.metric, self@.points, query@, order, 0, filter)
                =~= Set::empty());
        }
        while i < ids.len()
            invariant
                i <= order.len(),
                order == ids.order(),
                order.no_duplicates(),
                self.wf(),
                self.points.wf(),
                ids.wf(),
                lawful(*kernel),
                k > 0,
                best_of(
                    best_ranks(best@),
                    pool_upto(
                        *kernel,
                        self@.config.metric,
                        self@.points,
                        query@,
                        order,
                        i as int,
                        filter,
                    ),
                    k as nat,
                ),
                shown(best@, self@.points),
            decreases order.len() - i,
        {
            proof {
                lemma_pool_upto(
                    *kernel,
                    self@.config.metric,
                    self@.points,
                    query@,
                    order,
                    i as int,
                    filter,
                );
            }
            match self.points.get(ids.at(i).as_str()) {
                Some(point) => {
                    let admitted: bool = match filter {
                        Some(f) => f.matches(&point.metadata),
                        None => true,
                    };
                    if admitted {
                        let score: u32 = self.config.metric.score(kernel, &query, &point.vector);
                        offer(
                            &mut best,
                            k,
                            score,
                            point,
                            Ghost(
                                pool_upto(
                                    *kernel,
                                    self@.config.metric,
                                    self@.points,
                                    query@,
                                    order,
                                    i as int,
                                    filter,
                                ),
                            ),
                        );
                    }
                },
                None => {},
            }
            i = i + 1;
        }
        proof {
            assert(order.subrange(0, i as int) =~= order);
            assert forall|id: Seq<char>| order.to_set().contains(id) <==> ids@.contains(id) by {
                if order.contains(id) {
                    let x = choose|x: int| 0 <= x < order.len() && order[x] == id;
                    assert(ids@.contains(order[x]));
                }
            }
            assert(order.to_set() =~= ids@);
        }
        Ok(hits_of(&best, Ghost(self@.points)))
    }

    /// All points, in the order of their IDs.
    pub(crate) fn snapshot_points(&self) -> (points: Vec<Point>)
        requires
            self.wf(),
        ensures
            listing(self@.points, views(points@)),
            points@.len() == self@.points.len(),
    {
        let mut copies: Vec<Point> = Vec::new();
        let mut i: usize = 0;
        proof {
            self.points.lemma_keys();
        }
        while i < self.points.len()
            invariant
                i <= self.points.keys().len(),
                self.wf(),
                self.points.wf(),
                copies@.len() == i,
                copied(copies@, self@.points, self.points.keys()),
            decreases self.points.keys().len() - i,
        {
            let point = self.points.value_at(i);
            let copy = point.clone();
            assert(self@.points.contains_key(self.points.keys()[i as int]));
            copies.push(copy);
            i = i + 1;
        }
        let points = sort(copies, true);
        proof {
            broadcast use vstd::seq_lib::group_to_multiset_ensures;

            let keys = self.points.keys();
            let list = views(points@);
            assert(points@.len() == copies@.len()) by {
                vstd::seq_lib::to_multiset_len(points@);
                vstd::seq_lib::to_multiset_len(copies@);
            }
            assert forall|i: int| 0 <= i < list.len() implies self@.points.contains_key(
                (#[trigger] list[i]).id,
            ) && self@.points[list[i].id] == list[i] by {
                vstd::seq_lib::to_multiset_contains(points@, points@[i]);
                vstd::seq_lib::to_multiset_contains(copies@, points@[i]);
                let j = choose|j: int| 0 <= j < copies@.len() && copies@[j] == points@[i];
                assert(self@.points.contains_key(keys[j]));
            }
            assert(copies@.no_duplicates()) by {
                assert forall|a: int, b: int|
                    0 <= a < copies@.len() && 0 <= b < copies@.len() && a != b implies copies@[a]
                    != copies@[b] by {
                    assert(self@.points[keys[a]].id == keys[a]);
                    assert(self@.points[keys[b]].id == keys[b]);
                }
            }
            copies@.lemma_multiset_has_no_duplicates();
            points@.lemma_multiset_has_no_duplicates_conv();
            assert forall|a: int, b: int| 0 <= a < b < list.len() implies text_less(
                #[trigger] list[a].id,
                #[trigger] list[b].id,
            ) by {
                assert(Point::at_most(points@[a]@, points@[b]@));
                if list[a].id == list[b].id {
                    // Two copies of one point would be one copy.
                    vstd::seq_lib::to_multiset_contains(points@, points@[a]);
                    vstd::seq_lib::to_multiset_contains(copies@, points@[a]);
                    vstd::seq_lib::to_multiset_contains(points@, points@[b]);
                    vstd::seq_lib::to_multiset_contains(copies@, points@[b]);
                    let x = choose|x: int| 0 <= x < copies@.len() && copies@[x] == points@[a];
                    let y = choose|y: int| 0 <= y < copies@.len() && copies@[y] == points@[b];
                    assert(self@.points[keys[x]].id == keys[x]);
                    assert(self@.points[keys[y]].id == keys[y]);
                    assert(keys[x] == keys[y]);
                    assert(points@[a] == points@[b]);
                }
            }
            assert forall|id: Seq<char>| #[trigger]
                self@.points.contains_key(id) implies exists|i: int|
                0 <= i < list.len() && (#[trigger] list[i]).id == id by {
                assert(self.points@.contains_key(id));
                let x = choose|x: int| 0 <= x < keys.len() && keys[x] == id;
                vstd::seq_lib::to_multiset_contains(copies@, copies@[x]);
                vstd::seq_lib::to_multiset_contains(points@, copies@[x]);
                assert(copies@.contains(copies@[x]));
                let y = choose|y: int| 0 <= y < points@.len() && points@[y] == copies@[x];
                assert(list[y].id == id);
            }
        }
        points
    }

    /// Replaces everything by the points of a segment written at `sequence`. A
    /// point newer than that is refused before anything changes. An ID that occurs
    /// twice is refused with the points up to it taken in, and the sequence as it
    /// was.
    pub(crate) fn restore_snapshot(&mut self, points: Vec<Point>, sequence: u64) -> (result: Result<
        (),
    >)
        requires
            old(self).wf(),
            forall|i: int|
                0 <= i < points@.len() ==> (#[trigger] points@[i]).id@.len() > 0
                    && points@[i].vector@.len() == old(self)@.config.dimension,
        ensures
            final(self).wf(),
            final(self)@.config == old(self)@.config,
            match restored(views(points@), sequence) {
                Ok(restored) => {
                    &&& result is Ok
                    &&& final(self)@.points == restored
                    &&& final(self)@.sequence == sequence
                },
                Err(error) => {
                    &&& result is Err
                    &&& result->Err_0@ == error
                    &&& final(self)@.sequence == old(self)@.sequence
                    &&& if has_newer(views(points@), sequence) {
                        final(self)@.points == old(self)@.points
                    } else {
                        exists|repeat: int| #[trigger]
                            first_repeat(views(points@), repeat) && final(self)@.points
                                == with_points(
                                Map::empty(),
                                views(points@).subrange(0, repeat + 1),
                            )
                    }
                },
            },
    {
        let mut i: usize = 0;
        while i < points.len()
            invariant
                i <= points.len(),
                forall|j: int| 0 <= j < i ==> (#[trigger] points@[j]).sequence <= sequence,
                *self == *old(self),
                old(self).wf(),
            decreases points.len() - i,
        {
            if points[i].sequence > sequence {
                assert(views(points@)[i as int].sequence > sequence);
                return Err(Error::corrupt("point sequence is newer than its segment"));
            }
            i = i + 1;
        }
        assert(!has_newer(views(points@), sequence)) by {
            assert forall|j: int| 0 <= j < points@.len() implies (
            #[trigger] views(points@)[j]).sequence <= sequence by {
                assert(points@[j].sequence <= sequence);
            }
        }
        let ghost before = self@;
        self.points.clear();
        let mut i: usize = 0;
        assert(views(points@).subrange(0, 0) =~= Seq::empty());
        while i < points.len()
            invariant
                i <= points.len(),
                self.wf(),
                self.points.wf(),
                self@.config == before.config,
                before == old(self)@,
                self@.sequence == before.sequence,
                !has_newer(views(points@), sequence),
                self@.points == with_points(
                    Map::empty(),
                    views(points@).subrange(0, i as int),
                ),
                forall|j: int| 0 <= j < points@.len() ==> (#[trigger] points@[j]).sequence <= sequence,
                forall|j: int|
                    0 <= j < points@.len() ==> (#[trigger] points@[j]).id@.len() > 0
                        && points@[j].vector@.len() == before.config.dimension,
                forall|id: Seq<char>| #[trigger]
                    self@.points.contains_key(id) ==> exists|x: int|
                        0 <= x < i && (#[trigger] points@[x]).id@ == id,
                forall|a: int, b: int|
                    0 <= a < b < i ==> (#[trigger] points@[a]).id@ != (#[trigger] points@[b]).id@,
                forall|x: int| 0 <= x < i ==> self@.points.contains_key((#[trigger] points@[x]).id@),
            decreases points.len() - i,
        {
            let copy = points[i].clone();
            let metadata = &copy.metadata;
            proof {
                use_type_invariant(metadata);
            }
            let name = points[i].id.clone();
            let ghost held = self@.points;
            let replaced: bool = self.points.insert(name, copy);
            if replaced {
                proof {
                    let x = choose|x: int|
                        0 <= x < i && (#[trigger] points@[x]).id@ == points@[i as int].id@;
                    let all = views(points@);
                    let next = all.subrange(0, i + 1);
                    assert(all[x].id == all[i as int].id);
                    assert forall|a: int, b: int| 0 <= a < b < i implies (#[trigger] all[a]).id != (
                    #[trigger] all[b]).id by {
                        assert(points@[a].id@ != points@[b].id@);
                    }
                    assert(first_repeat(all, i as int));
                    assert(next.drop_last() =~= all.subrange(0, i as int));
                }
                return Err(Error::corrupt("segment contains duplicate point IDs"));
            }
            proof {
                let next = views(points@).subrange(0, i + 1);
                assert(next.drop_last() =~= views(points@).subrange(0, i as int));
                assert forall|id: Seq<char>| #[trigger]
                    self@.points.contains_key(id) implies exists|x: int|
                    0 <= x < i + 1 && (#[trigger] points@[x]).id@ == id by {
                    if id == points@[i as int].id@ {
                    } else {
                        assert(held.contains_key(id));
                    }
                }
            }
            i = i + 1;
        }
        proof {
            assert(views(points@).subrange(0, i as int) =~= views(points@));
            assert forall|a: int, b: int|
                0 <= a < b < views(points@).len() implies (#[trigger] views(points@)[a]).id != (
            #[trigger] views(points@)[b]).id by {
                assert(points@[a].id@ != points@[b].id@);
            }
        }
        self.sequence = sequence;
        Ok(())
    }
}

/// What a batch makes of a collection, or why it is refused.
pub open spec fn upserted<K: Kernel>(
    kernel: K,
    before: CollectionView,
    batch: Seq<UpsertView>,
) -> core::result::Result<CollectionView, ErrorView> {
    if before.sequence == u64::MAX {
        Err(ErrorView::SequenceOverflow)
    } else {
        let sequence = (before.sequence + 1) as u64;
        match prepared_batch(kernel, before.config, batch, sequence) {
            Ok(points) => Ok(
                CollectionView {
                    config: before.config,
                    points: with_points(before.points, points),
                    sequence,
                },
            ),
            Err(error) => Err(error),
        }
    }
}

/// What a deletion makes of a collection, or why it is refused.
pub open spec fn deleted(before: CollectionView, ids: Seq<Seq<char>>) -> core::result::Result<
    CollectionView,
    ErrorView,
> {
    if before.sequence == u64::MAX {
        Err(ErrorView::SequenceOverflow)
    } else {
        Ok(
            CollectionView {
                config: before.config,
                points: without_points(before.points, ids),
                sequence: (before.sequence + 1) as u64,
            },
        )
    }
}

/// A point is newer than a sequence.
pub open spec fn has_newer(points: Seq<PointView>, sequence: u64) -> bool {
    exists|i: int| 0 <= i < points.len() && (#[trigger] points[i]).sequence > sequence
}

/// The point at `repeat` is the first whose ID another before it has.
pub open spec fn first_repeat(points: Seq<PointView>, repeat: int) -> bool {
    &&& 0 <= repeat < points.len()
    &&& exists|i: int| 0 <= i < repeat && (#[trigger] points[i]).id == points[repeat].id
    &&& forall|i: int, j: int|
        0 <= i < j < repeat ==> (#[trigger] points[i]).id != (#[trigger] points[j]).id
}

/// The points that a segment written at `sequence` restores, or why it is refused.
pub open spec fn restored(points: Seq<PointView>, sequence: u64) -> core::result::Result<
    Points,
    ErrorView,
> {
    if has_newer(points, sequence) {
        Err(ErrorView::CorruptStorage("point sequence is newer than its segment"@))
    } else if exists|i: int, j: int|
        0 <= i < j < points.len() && (#[trigger] points[i]).id == (#[trigger] points[j]).id {
        Err(ErrorView::CorruptStorage("segment contains duplicate point IDs"@))
    } else {
        Ok(with_points(Map::empty(), points))
    }
}

/// The last point of a listing has the greatest ID, and the others are a listing of the
/// other points.
proof fn lemma_listing_last(points: Points, list: Seq<PointView>)
    requires
        listing(points, list),
        list.len() > 0,
    ensures
        listing(points.remove(list.last().id), list.drop_last()),
        forall|id: Seq<char>| #[trigger]
            points.contains_key(id) ==> id == list.last().id || text_less(id, list.last().id),
{
    let last = list.last();
    let rest = list.drop_last();
    let fewer = points.remove(last.id);
    assert forall|i: int| 0 <= i < rest.len() implies fewer.contains_key((#[trigger] rest[i]).id)
        && fewer[rest[i].id] == rest[i] by {
        assert(text_less(list[i].id, list[list.len() - 1].id));
        lemma_text_irreflexive(last.id);
        assert(points.contains_key(list[i].id));
    }
    assert forall|id: Seq<char>| #[trigger] fewer.contains_key(id) implies exists|i: int|
        0 <= i < rest.len() && (#[trigger] rest[i]).id == id by {
        assert(points.contains_key(id));
        let i = choose|i: int| 0 <= i < list.len() && (#[trigger] list[i]).id == id;
        assert(rest[i].id == id);
    }
    assert forall|i: int, j: int| 0 <= i < j < rest.len() implies text_less(
        #[trigger] rest[i].id,
        #[trigger] rest[j].id,
    ) by {
        assert(text_less(list[i].id, list[j].id));
    }
    assert forall|id: Seq<char>| #[trigger] points.contains_key(id) implies id == last.id
        || text_less(id, last.id) by {
        let i = choose|i: int| 0 <= i < list.len() && (#[trigger] list[i]).id == id;
        if i < list.len() - 1 {
            assert(text_less(list[i].id, list[list.len() - 1].id));
        }
    }
}

/// Points have one listing: two of the same points are the same.
pub proof fn law_listing_is_unique(points: Points, a: Seq<PointView>, b: Seq<PointView>)
    requires
        listing(points, a),
        listing(points, b),
    ensures
        a == b,
    decreases a.len(),
{
    if a.len() == 0 {
        if b.len() > 0 {
            assert(points.contains_key(b[0].id));
        }
        assert(a =~= b);
    } else {
        let last = a[a.len() - 1];
        assert(points.contains_key(last.id));
        let other = b[b.len() - 1];
        assert(points.contains_key(other.id));
        lemma_listing_last(points, a);
        lemma_listing_last(points, b);
        if last.id != other.id {
            lemma_text_transitive(last.id, other.id, last.id);
            lemma_text_irreflexive(last.id);
        }
        law_listing_is_unique(points.remove(last.id), a.drop_last(), b.drop_last());
        assert(a =~= a.drop_last().push(last));
        assert(b =~= b.drop_last().push(other));
    }
}

/// The points of a list stand in the map that it is written into.
proof fn lemma_listed(list: Seq<PointView>)
    requires
        in_id_order(list),
    ensures
        forall|i: int|
            0 <= i < list.len() ==> with_points(Map::empty(), list).contains_key(
                (#[trigger] list[i]).id,
            ) && with_points(Map::empty(), list)[list[i].id] == list[i],
        forall|id: Seq<char>| #[trigger]
            with_points(Map::empty(), list).contains_key(id) ==> exists|i: int|
                0 <= i < list.len() && (#[trigger] list[i]).id == id,
    decreases list.len(),
{
    if list.len() > 0 {
        let rest = list.drop_last();
        let last = list.len() - 1;
        assert forall|i: int, j: int| 0 <= i < j < rest.len() implies text_less(
            #[trigger] rest[i].id,
            #[trigger] rest[j].id,
        ) by {
            assert(text_less(list[i].id, list[j].id));
        }
        lemma_listed(rest);
        let points = with_points(Map::empty(), list);
        assert forall|i: int| 0 <= i < list.len() implies points.contains_key(
            (#[trigger] list[i]).id,
        ) && points[list[i].id] == list[i] by {
            if i < last {
                assert(rest[i] == list[i]);
                assert(text_less(list[i].id, list[last].id));
                lemma_text_irreflexive(list[i].id);
            }
        }
        assert forall|id: Seq<char>| #[trigger] points.contains_key(id) implies exists|i: int|
            0 <= i < list.len() && (#[trigger] list[i]).id == id by {
            if id == list[last].id {
                assert(list[last].id == id);
            } else {
                assert(with_points(Map::empty(), rest).contains_key(id));
                let i = choose|i: int| 0 <= i < rest.len() && (#[trigger] rest[i]).id == id;
                assert(list[i].id == id);
            }
        }
    }
}

/// A snapshot of a collection restores it: all points, with what is theirs, and
/// none beside them.
pub proof fn law_snapshots_are_restored(c: CollectionView, list: Seq<PointView>)
    requires
        c.no_newer(),
        listing(c.points, list),
    ensures
        restored(list, c.sequence) == Ok::<Points, ErrorView>(c.points),
{
    lemma_listed(list);
    assert forall|i: int| 0 <= i < list.len() implies (#[trigger] list[i]).sequence
        <= c.sequence by {
        assert(c.points.contains_key(list[i].id));
    }
    assert forall|i: int, j: int| 0 <= i < j < list.len() implies (#[trigger] list[i]).id != (
    #[trigger] list[j]).id by {
        assert(text_less(list[i].id, list[j].id));
        lemma_text_irreflexive(list[i].id);
    }
    let points = with_points(Map::empty(), list);
    assert forall|id: Seq<char>| points.contains_key(id) == #[trigger] c.points.contains_key(
        id,
    ) && (points.contains_key(id) ==> points[id] == c.points[id]) by {
        if c.points.contains_key(id) {
            let i = choose|i: int| 0 <= i < list.len() && (#[trigger] list[i]).id == id;
            assert(points.contains_key(list[i].id));
        }
        if points.contains_key(id) {
            let i = choose|i: int| 0 <= i < list.len() && (#[trigger] list[i]).id == id;
            assert(c.points.contains_key(list[i].id));
        }
    }
    assert(points =~= c.points);
}

/// Points written at a sequence are no newer than it, and neither are those that
/// stay.
pub proof fn lemma_with_points_no_newer(points: Points, batch: Seq<PointView>, sequence: u64)
    requires
        forall|id: Seq<char>| #[trigger]
            points.contains_key(id) ==> points[id].sequence <= sequence,
        forall|i: int| 0 <= i < batch.len() ==> (#[trigger] batch[i]).sequence <= sequence,
    ensures
        forall|id: Seq<char>| #[trigger]
            with_points(points, batch).contains_key(id) ==> with_points(points, batch)[id].sequence
                <= sequence,
    decreases batch.len(),
{
    if batch.len() > 0 {
        let rest = batch.drop_last();
        assert forall|i: int| 0 <= i < rest.len() implies (#[trigger] rest[i]).sequence
            <= sequence by {
            assert(batch[i].sequence <= sequence);
        }
        lemma_with_points_no_newer(points, rest, sequence);
        assert(batch[batch.len() - 1].sequence <= sequence);
        let after = with_points(points, batch);
        assert forall|id: Seq<char>| #[trigger] after.contains_key(id) implies after[id].sequence
            <= sequence by {
            if id != batch.last().id {
                assert(with_points(points, rest).contains_key(id));
            }
        }
    }
}

/// What stays after a deletion was there before it.
pub proof fn lemma_without_points(points: Points, ids: Seq<Seq<char>>)
    ensures
        forall|id: Seq<char>| #[trigger]
            without_points(points, ids).contains_key(id) ==> points.contains_key(id)
                && without_points(points, ids)[id] == points[id],
    decreases ids.len(),
{
    if ids.len() > 0 {
        let rest = ids.drop_last();
        lemma_without_points(points, rest);
        let after = without_points(points, ids);
        assert forall|id: Seq<char>| #[trigger] after.contains_key(id) implies points.contains_key(
            id,
        ) && after[id] == points[id] by {
            assert(without_points(points, rest).contains_key(id));
        }
    }
}

/// An empty collection has no point newer than its last commit, and neither a batch
/// nor a deletion brings one in.
pub proof fn law_points_are_no_newer<K: Kernel>(
    kernel: K,
    c: CollectionView,
    batch: Seq<UpsertView>,
    ids: Seq<Seq<char>>,
)
    ensures
        c.points == Map::<Seq<char>, PointView>::empty() ==> c.no_newer(),
        c.no_newer() ==> {
            &&& upserted(kernel, c, batch) matches Ok(after) ==> after.no_newer()
            &&& deleted(c, ids) matches Ok(after) ==> after.no_newer()
        },
{
    if c.no_newer() && c.sequence < u64::MAX {
        let sequence = (c.sequence + 1) as u64;
        if prepared_batch(kernel, c.config, batch, sequence) is Ok {
            let points = prepared_batch(kernel, c.config, batch, sequence)->Ok_0;
            lemma_prepared_each(kernel, c.config, batch, sequence);
            assert forall|i: int| 0 <= i < points.len() implies (#[trigger] points[i]).sequence
                <= sequence by {
                assert(prepared_point(kernel, c.config, batch[i], sequence) is Ok);
            }
            lemma_with_points_no_newer(c.points, points, sequence);
        }
        lemma_without_points(c.points, ids);
    }
}

/// What preparing points keeps of each, and what it makes of its vector.
pub proof fn lemma_prepared_each<K: Kernel>(
    kernel: K,
    config: CollectionConfig,
    points: Seq<UpsertView>,
    sequence: u64,
)
    requires
        prepared_points(kernel, config, points, sequence) is Ok,
    ensures
        prepared_points(kernel, config, points, sequence)->Ok_0.len() == points.len(),
        forall|i: int|
            0 <= i < points.len() ==> prepared_point(
                kernel,
                config,
                #[trigger] points[i],
                sequence,
            ) == Ok::<PointView, ErrorView>(
                prepared_points(kernel, config, points, sequence)->Ok_0[i],
            ),
    decreases points.len(),
{
    if points.len() > 0 {
        let rest = points.drop_last();
        lemma_prepared_each(kernel, config, rest, sequence);
        assert forall|i: int| 0 <= i < points.len() implies prepared_point(
            kernel,
            config,
            #[trigger] points[i],
            sequence,
        ) == Ok::<PointView, ErrorView>(
            prepared_points(kernel, config, points, sequence)->Ok_0[i],
        ) by {
            if i < rest.len() {
                assert(rest[i] == points[i]);
            }
        }
    }
}

/// The copies are the points under the keys, one for one.
spec fn copied(copies: Seq<Point>, points: Points, keys: Seq<Seq<char>>) -> bool {
    forall|j: int|
        0 <= j < copies.len() ==> {
            &&& (#[trigger] copies[j]).id@ == keys[j]
            &&& points.contains_key(copies[j].id@)
            &&& copies[j]@ == points[copies[j].id@]
        }
}

/// Every candidate is a stored point.
spec fn shown(best: Seq<Best>, points: Points) -> bool {
    forall|i: int|
        0 <= i < best.len() ==> points.contains_key((#[trigger] best[i]).point.id@)
            && best[i].point@ == points[best[i].point.id@]
}

fn hits_of(best: &Vec<Best>, Ghost(points): Ghost<Points>) -> (hits: Vec<SearchHit>)
    requires
        shown(best@, points),
    ensures
        ranks(views(hits@)) == best_ranks(best@),
        describe(views(hits@), points),
{
    let mut hits: Vec<SearchHit> = Vec::new();
    let mut i: usize = 0;
    while i < best.len()
        invariant
            i <= best.len(),
            hits@.len() == i,
            shown(best@, points),
            forall|j: int|
                0 <= j < i ==> (#[trigger] hits@[j])@.rank() == best@[j].rank() && hits@[j].metadata@
                    == best@[j].point.metadata@ && hits@[j].sequence == best@[j].point.sequence,
        decreases best.len() - i,
    {
        let point = best[i].point;
        hits.push(
            SearchHit {
                id: point.id.clone(),
                score: best[i].score,
                metadata: point.metadata.clone(),
                sequence: point.sequence,
            },
        );
        i = i + 1;
    }
    proof {
        assert(ranks(views(hits@)) =~= best_ranks(best@));
        assert forall|i: int| 0 <= i < views(hits@).len() implies points.contains_key(
            (#[trigger] views(hits@)[i]).id,
        ) && views(hits@)[i].metadata == points[views(hits@)[i].id].metadata
            && views(hits@)[i].sequence == points[views(hits@)[i].id].sequence by {
            assert(hits@[i]@.rank() == best@[i].rank());
            assert(best@[i].point@ == points[best@[i].point.id@]);
        }
    }
    hits
}

proof fn lemma_prepared_error<K: Kernel>(
    kernel: K,
    config: CollectionConfig,
    points: Seq<UpsertView>,
    count: int,
    sequence: u64,
)
    requires
        0 <= count <= points.len(),
        prepared_points(kernel, config, points.subrange(0, count), sequence) is Err,
    ensures
        prepared_points(kernel, config, points, sequence) == prepared_points(
            kernel,
            config,
            points.subrange(0, count),
            sequence,
        ),
    decreases points.len() - count,
{
    if count == points.len() {
        assert(points.subrange(0, count) =~= points);
    } else {
        assert(points.subrange(0, count + 1).drop_last() =~= points.subrange(0, count));
        lemma_prepared_error(kernel, config, points, count + 1, sequence);
    }
}

/// What a batch writes can be read back: under the ID of its `i`th point stands
/// that point, unless the batch itself wrote the ID again later.
pub proof fn law_written_points_are_read_back(points: Points, batch: Seq<PointView>, i: int)
    requires
        0 <= i < batch.len(),
        forall|j: int| i < j < batch.len() ==> (#[trigger] batch[j]).id != batch[i].id,
    ensures
        with_points(points, batch).contains_key(batch[i].id),
        with_points(points, batch)[batch[i].id] == batch[i],
    decreases batch.len(),
{
    if i < batch.len() - 1 {
        assert(batch[batch.len() - 1].id != batch[i].id);
        assert forall|j: int| i < j < batch.drop_last().len() implies (
        #[trigger] batch.drop_last()[j]).id != batch.drop_last()[i].id by {
            assert(batch[j].id != batch[i].id);
        }
        law_written_points_are_read_back(points, batch.drop_last(), i);
    }
}

/// A batch leaves alone every ID that it does not hold.
pub proof fn law_other_points_are_untouched(points: Points, batch: Seq<PointView>, id: Seq<char>)
    requires
        forall|j: int| 0 <= j < batch.len() ==> (#[trigger] batch[j]).id != id,
    ensures
        with_points(points, batch).contains_key(id) == points.contains_key(id),
        points.contains_key(id) ==> with_points(points, batch)[id] == points[id],
    decreases batch.len(),
{
    if batch.len() > 0 {
        assert(batch[batch.len() - 1].id != id);
        assert forall|j: int| 0 <= j < batch.drop_last().len() implies (
        #[trigger] batch.drop_last()[j]).id != id by {
            assert(batch[j].id != id);
        }
        law_other_points_are_untouched(points, batch.drop_last(), id);
    }
}

/// After a deletion the deleted IDs have no point, and all others keep theirs.
pub proof fn law_deleted_points_are_gone(points: Points, ids: Seq<Seq<char>>, id: Seq<char>)
    ensures
        ids.contains(id) ==> !without_points(points, ids).contains_key(id),
        !ids.contains(id) ==> without_points(points, ids).contains_key(id) == points.contains_key(
            id,
        ),
        !ids.contains(id) && points.contains_key(id) ==> without_points(points, ids)[id]
            == points[id],
    decreases ids.len(),
{
    if ids.len() > 0 {
        let rest = ids.drop_last();
        law_deleted_points_are_gone(points, rest, id);
        if ids.contains(id) && ids.last() != id {
            let i = choose|i: int| 0 <= i < ids.len() && ids[i] == id;
            assert(rest[i] == id);
        }
        if !ids.contains(id) {
            assert(ids[ids.len() - 1] != id);
            if rest.contains(id) {
                let i = choose|i: int| 0 <= i < rest.len() && rest[i] == id;
                assert(ids[i] == id);
            }
        }
    }
}

/// Commits are numbered without gaps, and the configuration never changes.
pub proof fn law_commits_are_consecutive<K: Kernel>(
    kernel: K,
    before: CollectionView,
    batch: Seq<UpsertView>,
    ids: Seq<Seq<char>>,
)
    ensures
        upserted(kernel, before, batch) matches Ok(after) ==> after.config == before.config
            && after.sequence == before.sequence + 1,
        deleted(before, ids) matches Ok(after) ==> after.config == before.config && after.sequence
            == before.sequence + 1,
{
}

/// A point that a collection takes: it has an ID and as many components as it should,
/// all of them finite and, under the cosine metric, not all of them zero.
pub open spec fn acceptable(config: CollectionConfig, point: UpsertView) -> bool {
    &&& point.id.len() > 0
    &&& point.vector.len() == config.dimension
    &&& forall|c: int|
        0 <= c < point.vector.len() ==> crate::bits::single_finite(#[trigger] point.vector[c])
    &&& config.metric == Metric::Cosine ==> exists|c: int|
        0 <= c < point.vector.len() && !crate::bits::single_zero(#[trigger] point.vector[c])
}

/// One commit wrote a batch: under the ID of each of its points, unless the batch itself
/// writes the ID again later, stands that point as of the commit, with its metadata and
/// its vector, normalised under the cosine metric and as it is under the others; every
/// other ID has what it had.
pub open spec fn wrote<K: Kernel>(
    kernel: K,
    before: CollectionView,
    batch: Seq<UpsertView>,
    after: CollectionView,
) -> bool {
    &&& after.config == before.config
    &&& after.sequence == before.sequence + 1
    &&& forall|i: int|
        #![trigger batch[i]]
        0 <= i < batch.len() && (forall|j: int|
            i < j < batch.len() ==> (#[trigger] batch[j]).id != batch[i].id) ==> {
            let point = after.points[batch[i].id];
            &&& after.points.contains_key(batch[i].id)
            &&& point.id == batch[i].id
            &&& point.metadata == batch[i].metadata
            &&& point.sequence == after.sequence
            &&& point.vector == if before.config.metric == Metric::Cosine {
                crate::metric::normalized(kernel, batch[i].vector)
            } else {
                batch[i].vector
            }
        }
    &&& forall|id: Seq<char>|
        (forall|i: int| 0 <= i < batch.len() ==> (#[trigger] batch[i]).id != id) ==> {
            &&& #[trigger] after.points.contains_key(id) == before.points.contains_key(id)
            &&& after.points.contains_key(id) ==> after.points[id] == before.points[id]
        }
}

/// One commit deleted IDs: none of them has a point, and every other ID has what it had.
pub open spec fn erased(before: CollectionView, ids: Seq<Seq<char>>, after: CollectionView) -> bool {
    &&& after.config == before.config
    &&& after.sequence == before.sequence + 1
    &&& forall|id: Seq<char>| #[trigger]
        after.points.contains_key(id) <==> before.points.contains_key(id) && !ids.contains(id)
    &&& forall|id: Seq<char>| #[trigger]
        after.points.contains_key(id) ==> after.points[id] == before.points[id]
}

/// Points are prepared where all of them are acceptable, and only there.
proof fn lemma_prepared_where_acceptable<K: Kernel>(
    kernel: K,
    config: CollectionConfig,
    points: Seq<UpsertView>,
    sequence: u64,
)
    ensures
        prepared_points(kernel, config, points, sequence) is Ok <==> forall|i: int|
            0 <= i < points.len() ==> acceptable(config, #[trigger] points[i]),
    decreases points.len(),
{
    if points.len() > 0 {
        let rest = points.drop_last();
        let last = points[points.len() - 1];
        lemma_prepared_where_acceptable(kernel, config, rest, sequence);
        assert(prepared_point(kernel, config, last, sequence) is Ok <==> acceptable(config, last));
        if forall|i: int| 0 <= i < rest.len() ==> acceptable(config, #[trigger] rest[i]) {
            assert forall|i: int| 0 <= i < points.len() && acceptable(config, last) implies acceptable(
                config,
                #[trigger] points[i],
            ) by {
                if i < rest.len() {
                    assert(acceptable(config, rest[i]));
                }
            }
        } else {
            let i = choose|i: int| 0 <= i < rest.len() && !acceptable(config, #[trigger] rest[i]);
            assert(!acceptable(config, points[i]));
        }
    }
}

/// A batch is prepared where it holds points and all of them are acceptable, and only
/// there; written at the next sequence it is what one commit writes.
pub proof fn law_prepared_batches_are_written<K: Kernel>(
    kernel: K,
    before: CollectionView,
    batch: Seq<UpsertView>,
)
    requires
        before.sequence < u64::MAX,
    ensures
        ({
            let sequence = (before.sequence + 1) as u64;
            let stored = prepared_batch(kernel, before.config, batch, sequence);
            &&& stored is Ok <==> batch.len() > 0 && forall|i: int|
                0 <= i < batch.len() ==> acceptable(before.config, #[trigger] batch[i])
            &&& stored is Ok ==> wrote(
                kernel,
                before,
                batch,
                CollectionView {
                    config: before.config,
                    points: with_points(before.points, stored->Ok_0),
                    sequence,
                },
            )
        }),
{
    let sequence = (before.sequence + 1) as u64;
    let stored = prepared_batch(kernel, before.config, batch, sequence);
    lemma_prepared_where_acceptable(kernel, before.config, batch, sequence);
    if stored is Ok {
        let list = stored->Ok_0;
        let points = with_points(before.points, list);
        lemma_prepared_each(kernel, before.config, batch, sequence);
        assert forall|i: int| 0 <= i < batch.len() implies (#[trigger] batch[i]).id == list[i].id by {
            assert(prepared_point(kernel, before.config, batch[i], sequence) is Ok);
        }
        assert forall|i: int|
            #![trigger batch[i]]
            0 <= i < batch.len() && (forall|j: int|
                i < j < batch.len() ==> (#[trigger] batch[j]).id != batch[i].id) implies {
            let point = points[batch[i].id];
            &&& points.contains_key(batch[i].id)
            &&& point == list[i]
            &&& prepared_point(kernel, before.config, batch[i], sequence) == Ok::<
                PointView,
                ErrorView,
            >(list[i])
        } by {
            assert forall|j: int| i < j < list.len() implies (#[trigger] list[j]).id
                != list[i].id by {
                assert(batch[j].id != batch[i].id);
            }
            law_written_points_are_read_back(before.points, list, i);
        }
        assert forall|id: Seq<char>|
            (forall|i: int| 0 <= i < batch.len() ==> (#[trigger] batch[i]).id != id) implies {
            &&& #[trigger] points.contains_key(id) == before.points.contains_key(id)
            &&& points.contains_key(id) ==> points[id] == before.points[id]
        } by {
            assert forall|j: int| 0 <= j < list.len() implies (#[trigger] list[j]).id != id by {
                assert(batch[j].id != id);
            }
            law_other_points_are_untouched(before.points, list, id);
        }
    }
}

/// A deletion at the next sequence is what one commit deletes.
pub proof fn law_deletions_erase(before: CollectionView, ids: Seq<Seq<char>>)
    requires
        before.sequence < u64::MAX,
    ensures
        erased(
            before,
            ids,
            CollectionView {
                config: before.config,
                points: without_points(before.points, ids),
                sequence: (before.sequence + 1) as u64,
            },
        ),
{
    let points = without_points(before.points, ids);
    assert forall|id: Seq<char>|
        #![trigger points.contains_key(id)]
        (points.contains_key(id) <==> before.points.contains_key(id) && !ids.contains(id)) && (
        points.contains_key(id) ==> points[id] == before.points[id]) by {
        law_deleted_points_are_gone(before.points, ids, id);
    }
}

/// What a collection makes of a batch and of a deletion: it takes a batch of acceptable
/// points and no other, and writes it; it takes a deletion, and deletes every ID of it
/// and no other.
pub proof fn law_commits_do_what_is_asked<K: Kernel>(
    kernel: K,
    before: CollectionView,
    batch: Seq<UpsertView>,
    ids: Seq<Seq<char>>,
)
    ensures
        upserted(kernel, before, batch) is Ok <==> before.sequence < u64::MAX && batch.len() > 0
            && forall|i: int|
            0 <= i < batch.len() ==> acceptable(before.config, #[trigger] batch[i]),
        upserted(kernel, before, batch) matches Ok(after) ==> wrote(kernel, before, batch, after),
        deleted(before, ids) is Ok <==> before.sequence < u64::MAX,
        deleted(before, ids) matches Ok(after) ==> erased(before, ids, after),
{
    if before.sequence < u64::MAX {
        law_prepared_batches_are_written(kernel, before, batch);
        law_deletions_erase(before, ids);
    }
}

/// A query is accepted exactly where results are asked for and its vector has the size of
/// the collection, only finite components and, under the cosine metric, one that is not
/// zero.
pub proof fn law_proper_queries_are_accepted<K: Kernel>(
    kernel: K,
    config: CollectionConfig,
    query: Seq<u32>,
    k: usize,
)
    ensures
        accepted_query(kernel, config, query, k) is Ok <==> {
            &&& k > 0
            &&& query.len() == config.dimension
            &&& forall|i: int| 0 <= i < query.len() ==> crate::bits::single_finite(#[trigger] query[i])
            &&& config.metric == Metric::Cosine ==> exists|i: int|
                0 <= i < query.len() && !crate::bits::single_zero(#[trigger] query[i])
        },
        accepted_query(kernel, config, query, k) is Ok && config.metric != Metric::Cosine
            ==> accepted_query(kernel, config, query, k)->Ok_0 == query,
{
    law_only_cosine_changes_vectors(kernel, config.metric, query);
}

/// Stored points are taken back exactly where no ID occurs twice and none is newer than
/// what they were stored with; then each is found under its ID, and nothing else is.
pub proof fn law_restoring_takes_back_every_point(points: Seq<PointView>, sequence: u64)
    ensures
        restored(points, sequence) is Ok <==> {
            &&& forall|i: int| 0 <= i < points.len() ==> (#[trigger] points[i]).sequence <= sequence
            &&& forall|i: int, j: int|
                0 <= i < j < points.len() ==> (#[trigger] points[i]).id != (#[trigger] points[j]).id
        },
        restored(points, sequence) matches Ok(map) ==> {
            &&& forall|i: int|
                0 <= i < points.len() ==> map.contains_key((#[trigger] points[i]).id)
                    && map[points[i].id] == points[i]
            &&& forall|id: Seq<char>| #[trigger]
                map.contains_key(id) ==> exists|i: int|
                    0 <= i < points.len() && (#[trigger] points[i]).id == id
        },
{
    if restored(points, sequence) is Ok {
        let map = restored(points, sequence)->Ok_0;
        assert forall|i: int| 0 <= i < points.len() implies map.contains_key(
            (#[trigger] points[i]).id,
        ) && map[points[i].id] == points[i] by {
            assert forall|j: int| i < j < points.len() implies (#[trigger] points[j]).id
                != points[i].id by {
                assert(points[i].id != points[j].id);
            }
            law_written_points_are_read_back(Map::empty(), points, i);
        }
        assert forall|id: Seq<char>| #[trigger] map.contains_key(id) implies exists|i: int|
            0 <= i < points.len() && (#[trigger] points[i]).id == id by {
            if forall|j: int| 0 <= j < points.len() ==> (#[trigger] points[j]).id != id {
                law_other_points_are_untouched(Map::empty(), points, id);
            }
        }
    }
}

} // verus!
