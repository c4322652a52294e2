//! An index over metadata: which points a filter admits.
use crate::bits::{
    double_finite, lemma_integer_double_finite, double_nan, double_place, double_rank, is_double_at_least, is_double_nan};
use crate::collection::{views, Point, PointView};
use crate::filter::{
    law_alternatives_ask_for_one_part, law_conjunctions_ask_for_every_part, numeric, numeric_value,
    within, Filter,
};
use crate::ids::IdSet;
use crate::metadata::{ascending, lemma_place, lookup, place, Entries, Value, ValueView};
use crate::sort::{arranged, sort, Sortable};
use crate::text::{compare_text, lemma_text_total, lemma_text_transitive, text_less, Order};
use vstd::prelude::*;

verus! {

/// How a value is filed: as text, as an integer, as a float, as a boolean, or
/// as the number that it stands for in a range.
pub struct KeyView {
    pub field: Seq<char>,
    pub kind: u8,
    pub number: int,
    pub text: Seq<char>,
}

/// The order of the keys: by field, kind, number and text.
pub open spec fn key_less(a: KeyView, b: KeyView) -> bool {
    ||| text_less(a.field, b.field)
    ||| a.field == b.field && a.kind < b.kind
    ||| a.field == b.field && a.kind == b.kind && a.number < b.number
    ||| a.field == b.field && a.kind == b.kind && a.number == b.number && text_less(a.text, b.text)
}

proof fn lemma_key_total(a: KeyView, b: KeyView)
    ensures
        a == b || key_less(a, b) || key_less(b, a),
        !(key_less(a, b) && key_less(b, a)),
        !key_less(a, a),
{
    lemma_text_total(a.field, b.field);
    lemma_text_total(a.text, b.text);
    lemma_text_total(a.field, a.field);
    lemma_text_total(a.text, a.text);
}

proof fn lemma_key_transitive(a: KeyView, b: KeyView, c: KeyView)
    requires
        key_less(a, b),
        key_less(b, c),
    ensures
        key_less(a, c),
{
    if text_less(a.field, b.field) && text_less(b.field, c.field) {
        lemma_text_transitive(a.field, b.field, c.field);
    }
    if text_less(a.text, b.text) && text_less(b.text, c.text) {
        lemma_text_transitive(a.text, b.text, c.text);
    }
}

/// The key under which a value is filed for equality. A NaN equals nothing and
/// is not filed; the two zeros are filed together.
pub open spec fn scalar_key(field: Seq<char>, value: ValueView) -> Option<KeyView> {
    match value {
        ValueView::Keyword(text) => Some(KeyView { field, kind: 0, number: 0, text }),
        ValueView::Integer(n) => Some(
            KeyView { field, kind: 1, number: n as int, text: Seq::empty() },
        ),
        ValueView::Float(bits) => if double_nan(bits) {
            None
        } else {
            Some(KeyView { field, kind: 2, number: double_rank(bits), text: Seq::empty() })
        },
        ValueView::Boolean(b) => Some(
            KeyView {
                field,
                kind: 3,
                number: if b {
                    1
                } else {
                    0
                },
                text: Seq::empty(),
            },
        ),
    }
}

/// The key under which a value is filed for ranges.
pub open spec fn range_key(field: Seq<char>, value: ValueView) -> Option<KeyView> {
    match numeric(value) {
        Some(bits) => Some(
            KeyView { field, kind: 4, number: double_rank(bits), text: Seq::empty() },
        ),
        None => None,
    }
}

/// Metadata files a key.
pub open spec fn files(metadata: Entries, key: KeyView) -> bool {
    exists|j: int| #[trigger] filed_at(metadata, key, j)
}

/// The `j`th entry of metadata files a key.
pub open spec fn filed_at(metadata: Entries, key: KeyView, j: int) -> bool {
    &&& 0 <= j < metadata.len()
    &&& scalar_key(metadata[j].0, metadata[j].1) == Some(key) || range_key(
        metadata[j].0,
        metadata[j].1,
    ) == Some(key)
}

/// A filed key.
struct Key {
    field: String,
    kind: u8,
    number: i128,
    text: String,
}

impl View for Key {
    type V = KeyView;

    closed spec fn view(&self) -> KeyView {
        KeyView {
            field: self.field@,
            kind: self.kind,
            number: self.number as int,
            text: self.text@,
        }
    }
}

impl Key {
    fn comes_before(&self, other: &Key) -> (less: bool)
        ensures
            less == key_less(self@, other@),
    {
        proof {
            lemma_text_total(self.field@, other.field@);
        }
        match compare_text(self.field.as_str(), other.field.as_str()) {
            Order::Less => true,
            Order::Greater => false,
            Order::Equal => {
                if self.kind != other.kind {
                    self.kind < other.kind
                } else if self.number != other.number {
                    self.number < other.number
                } else {
                    compare_text(self.text.as_str(), other.text.as_str()) == Order::Less
                }
            },
        }
    }

    fn same(&self, other: &Key) -> (equal: bool)
        ensures
            equal == (self@ == other@),
    {
        proof {
            lemma_key_total(self@, other@);
        }
        !self.comes_before(other) && !other.comes_before(self)
    }

    fn of_scalar(field: &String, value: &Value) -> (key: Option<Key>)
        ensures
            match scalar_key(field@, value@) {
                Some(k) => key is Some && key->0@ == k,
                None => key is None,
            },
    {
        let none = String::new();
        assert(none@ =~= Seq::empty());
        match value {
            Value::Keyword(text) => Some(
                Key { field: field.clone(), kind: 0, number: 0, text: text.clone() },
            ),
            Value::Integer(n) => Some(
                Key { field: field.clone(), kind: 1, number: *n as i128, text: none },
            ),
            Value::Float(bits) => if is_double_nan(*bits) {
                None
            } else {
                Some(
                    Key { field: field.clone(), kind: 2, number: double_place(*bits), text: none },
                )
            },
            Value::Boolean(b) => Some(
                Key {
                    field: field.clone(),
                    kind: 3,
                    number: if *b {
                        1
                    } else {
                        0
                    },
                    text: none,
                },
            ),
        }
    }

    fn of_range(field: &String, value: &Value) -> (key: Option<Key>)
        ensures
            match range_key(field@, value@) {
                Some(k) => key is Some && key->0@ == k,
                None => key is None,
            },
    {
        match numeric_value(value) {
            Some(bits) => {
                let none = String::new();
                assert(none@ =~= Seq::empty());
                Some(Key { field: field.clone(), kind: 4, number: double_place(bits), text: none })
            },
            None => None,
        }
    }
}

/// A key and a point that files it.
struct Posting {
    key: Key,
    id: String,
}

impl View for Posting {
    type V = (KeyView, Seq<char>);

    closed spec fn view(&self) -> (KeyView, Seq<char>) {
        (self.key@, self.id@)
    }
}

impl Sortable for Posting {
    open spec fn at_most(a: (KeyView, Seq<char>), b: (KeyView, Seq<char>)) -> bool {
        !key_less(b.0, a.0)
    }

    proof fn lemma_total(a: (KeyView, Seq<char>), b: (KeyView, Seq<char>)) {
        lemma_key_total(a.0, b.0);
    }

    proof fn lemma_transitive(
        a: (KeyView, Seq<char>),
        b: (KeyView, Seq<char>),
        c: (KeyView, Seq<char>),
    ) {
        lemma_key_total(a.0, b.0);
        lemma_key_total(b.0, c.0);
        if key_less(c.0, a.0) {
            if a.0 != b.0 && b.0 != c.0 {
                lemma_key_transitive(a.0, b.0, c.0);
                lemma_key_total(a.0, c.0);
            }
        }
    }

    fn is_at_most(&self, other: &Posting) -> (r: bool) {
        !other.key.comes_before(&self.key)
    }
}

/// The metadata of points by their IDs.
pub type Catalog = Map<Seq<char>, Entries>;

/// The IDs whose metadata a filter admits.
pub open spec fn matching(catalog: Catalog, filter: Filter) -> Set<Seq<char>> {
    Set::new(|id: Seq<char>| catalog.contains_key(id) && filter.holds(catalog[id]))
}

/// The metadata of the first `count` points.
pub open spec fn catalog_of(points: Seq<PointView>, count: int) -> Catalog
    decreases count,
{
    if count <= 0 {
        Map::empty()
    } else {
        catalog_of(points, count - 1).insert(points[count - 1].id, points[count - 1].metadata)
    }
}

/// An index from scalar values to the points that have them.
pub struct MetadataIndex {
    all_ids: IdSet,
    postings: Vec<Posting>,
    catalog: Ghost<Catalog>,
}

impl View for MetadataIndex {
    type V = Catalog;

    closed spec fn view(&self) -> Catalog {
        self.catalog@
    }
}

spec fn posted(postings: Seq<Posting>, key: KeyView, id: Seq<char>) -> bool {
    exists|i: int| 0 <= i < postings.len() && (#[trigger] postings[i])@ == (key, id)
}

/// The postings are the keys that the catalog files.
spec fn complete(postings: Seq<Posting>, catalog: Catalog) -> bool {
    &&& forall|i: int|
        0 <= i < postings.len() ==> catalog.contains_key((#[trigger] postings[i]).id@) && files(
            catalog[postings[i].id@],
            postings[i].key@,
        )
    &&& forall|key: KeyView, id: Seq<char>|
        #![trigger posted(postings, key, id)]
        catalog.contains_key(id) && files(catalog[id], key) ==> posted(postings, key, id)
}

proof fn lemma_files_push(metadata: Entries, count: int, key: KeyView)
    requires
        0 <= count < metadata.len(),
    ensures
        files(metadata.subrange(0, count + 1), key) <==> files(metadata.subrange(0, count), key)
            || scalar_key(metadata[count].0, metadata[count].1) == Some(key) || range_key(
            metadata[count].0,
            metadata[count].1,
        ) == Some(key),
{
    let head = metadata.subrange(0, count);
    let next = metadata.subrange(0, count + 1);
    if files(next, key) {
        let j = choose|j: int| #[trigger] filed_at(next, key, j);
        if j < count {
            assert(filed_at(head, key, j));
        }
    }
    if files(head, key) {
        let j = choose|j: int| #[trigger] filed_at(head, key, j);
        assert(filed_at(next, key, j));
    }
    if scalar_key(metadata[count].0, metadata[count].1) == Some(key) || range_key(
        metadata[count].0,
        metadata[count].1,
    ) == Some(key) {
        assert(filed_at(next, key, count));
    }
}

proof fn lemma_posted_push(postings: Seq<Posting>, posting: Posting, key: KeyView, id: Seq<char>)
    ensures
        posted(postings.push(posting), key, id) <==> posted(postings, key, id) || posting@ == (
            key,
            id,
        ),
{
    let longer = postings.push(posting);
    if posted(longer, key, id) {
        let i = choose|i: int| 0 <= i < longer.len() && (#[trigger] longer[i])@ == (key, id);
        if i < postings.len() {
            assert(postings[i]@ == (key, id));
        }
    }
    if posted(postings, key, id) {
        let i = choose|i: int| 0 <= i < postings.len() && (#[trigger] postings[i])@ == (key, id);
        assert(longer[i]@ == (key, id));
    }
    if posting@ == (key, id) {
        assert(longer[postings.len() as int]@ == (key, id));
    }
}

/// Files one more key; what was filed stays filed.
fn post(postings: &mut Vec<Posting>, key: Option<Key>, id: &String)
    ensures
        forall|k: KeyView, i: Seq<char>| #[trigger]
            posted(final(postings)@, k, i) <==> posted(old(postings)@, k, i) || (key is Some
                && key->0@ == k && i == id@),
{
    match key {
        Some(k) => {
            let ghost before = postings@;
            let posting = Posting { key: k, id: id.clone() };
            let ghost value = posting;
            postings.push(posting);
            proof {
                assert forall|k: KeyView, i: Seq<char>| #[trigger]
                    posted(postings@, k, i) <==> posted(before, k, i) || (key is Some && key->0@
                        == k && i == id@) by {
                    lemma_posted_push(before, value, k, i);
                }
            }
        },
        None => {},
    }
}

impl MetadataIndex {
    /// The invariant.
    pub closed spec fn wf(&self) -> bool {
        &&& self.all_ids.wf()
        &&& self.all_ids@ == self.catalog@.dom()
        &&& arranged(self.postings@, true)
        &&& complete(self.postings@, self.catalog@)
        &&& forall|id: Seq<char>|
            self.catalog@.contains_key(id) ==> #[trigger] ascending(self.catalog@[id])
    }

    /// Indexes the metadata of points.
    pub fn build(points: &Vec<Point>) -> (index: MetadataIndex)
        requires
            forall|i: int, j: int|
                0 <= i < j < points@.len() ==> (#[trigger] points@[i]).id@ != (
                #[trigger] points@[j]).id@,
        ensures
            index.wf(),
            index@ == catalog_of(views(points@), points@.len() as int),
    {
        let mut all_ids = IdSet::new();
        let mut postings: Vec<Posting> = Vec::new();
        let ghost all = views(points@);
        let mut i: usize = 0;
        assert(all_ids@ =~= catalog_of(all, 0).dom());
        while i < points.len()
            invariant
                i <= points.len(),
                all == views(points@),
                all_ids.wf(),
                all_ids@ == catalog_of(all, i as int).dom(),
                forall|key: KeyView, id: Seq<char>| #[trigger]
                    posted(postings@, key, id) <==> catalog_of(all, i as int).contains_key(id)
                        && files(catalog_of(all, i as int)[id], key),
                forall|id: Seq<char>|
                    catalog_of(all, i as int).contains_key(id) ==> #[trigger] ascending(
                        catalog_of(all, i as int)[id],
                    ),
                forall|id: Seq<char>| #[trigger]
                    catalog_of(all, i as int).contains_key(id) ==> exists|x: int|
                        0 <= x < i && (#[trigger] points@[x]).id@ == id,
                forall|x: int, y: int|
                    0 <= x < y < points@.len() ==> (#[trigger] points@[x]).id@ != (
                    #[trigger] points@[y]).id@,
            decreases points.len() - i,
        {
            let point = &points[i];
            let ghost before = catalog_of(all, i as int);
            let ghost after = catalog_of(all, i + 1);
            let ghost id = point.id@;
            let ghost metadata = point.metadata@;
            proof {
                use_type_invariant(&point.metadata);
                assert(all[i as int] == point@);
                assert(after == before.insert(id, metadata));
                if before.contains_key(id) {
                    let x = choose|x: int| 0 <= x < i && (#[trigger] points@[x]).id@ == id;
                    assert(points@[x].id@ != points@[i as int].id@);
                }
            }
            all_ids.insert(point.id.clone());
            assert(all_ids@ =~= after.dom());
            let mut j: usize = 0;
            proof {
                assert(metadata.subrange(0, 0) =~= Seq::empty());
                assert forall|key: KeyView, x: Seq<char>| #[trigger]
                    posted(postings@, key, x) <==> (before.contains_key(x) && files(
                        before[x],
                        key,
                    )) || (x == id && files(metadata.subrange(0, 0), key)) by {}
            }
            while j < point.metadata.len()
                invariant
                    j <= metadata.len(),
                    metadata == point.metadata@,
                    id == point.id@,
                    !before.contains_key(id),
                    forall|key: KeyView, x: Seq<char>| #[trigger]
                        posted(postings@, key, x) <==> (before.contains_key(x) && files(
                            before[x],
                            key,
                        )) || (x == id && files(metadata.subrange(0, j as int), key)),
                decreases metadata.len() - j,
            {
                let field = point.metadata.key_at(j);
                let value = point.metadata.value_at(j);
                let ghost held = postings@;
                let scalar = Key::of_scalar(field, value);
                let ghost scalar_view = scalar;
                post(&mut postings, scalar, &point.id);
                let ghost middle = postings@;
                let range = Key::of_range(field, value);
                let ghost range_view = range;
                post(&mut postings, range, &point.id);
                proof {
                    assert forall|key: KeyView, x: Seq<char>| #[trigger]
                        posted(postings@, key, x) <==> (before.contains_key(x) && files(
                            before[x],
                            key,
                        )) || (x == id && files(metadata.subrange(0, j + 1), key)) by {
                        lemma_files_push(metadata, j as int, key);
                        assert(posted(middle, key, x) <==> posted(held, key, x) || (scalar_view
                            is Some && scalar_view->0@ == key && x == id));
                        assert(posted(postings@, key, x) <==> posted(middle, key, x) || (range_view
                            is Some && range_view->0@ == key && x == id));
                    }
                }
                j = j + 1;
            }
            proof {
                assert(metadata.subrange(0, j as int) =~= metadata);
                assert forall|x: Seq<char>| #[trigger] after.contains_key(x) implies exists|y: int|
                    0 <= y < i + 1 && (#[trigger] points@[y]).id@ == x by {
                    if x == id {
                        assert(points@[i as int].id@ == x);
                    } else {
                        assert(before.contains_key(x));
                    }
                }
                assert forall|x: Seq<char>| after.contains_key(x) implies #[trigger] ascending(
                    after[x],
                ) by {
                    if x != id {
                        assert(before.contains_key(x));
                        assert(ascending(before[x]));
                    }
                }
                assert forall|key: KeyView, x: Seq<char>| #[trigger]
                    posted(postings@, key, x) <==> after.contains_key(x) && files(
                    after[x],
                    key,
                ) by {}
            }
            i = i + 1;
        }
        let ghost unsorted = postings@;
        let sorted = sort(postings, true);
        let ghost catalog = catalog_of(all, i as int);
        proof {
            lemma_same_postings(unsorted, sorted@);
            assert(complete(sorted@, catalog)) by {
                assert forall|x: int| 0 <= x < sorted@.len() implies catalog.contains_key(
                    (#[trigger] sorted@[x]).id@,
                ) && files(catalog[sorted@[x].id@], sorted@[x].key@) by {
                    assert(posted(sorted@, sorted@[x].key@, sorted@[x].id@));
                    assert(posted(unsorted, sorted@[x].key@, sorted@[x].id@));
                }
            }
        }
        MetadataIndex { all_ids, postings: sorted, catalog: Ghost(catalog) }
    }
}

/// A key lies between two others; `closed` decides whether `high` itself counts.
spec fn between(key: KeyView, low: KeyView, high: KeyView, closed: bool) -> bool {
    !key_less(key, low) && if closed {
        !key_less(high, key)
    } else {
        key_less(key, high)
    }
}

/// The IDs of the postings from `start` to before `end` whose keys lie between two others.
spec fn gathered(
    postings: Seq<Posting>,
    start: int,
    end: int,
    low: KeyView,
    high: KeyView,
    closed: bool,
) -> Set<Seq<char>> {
    Set::new(
        |id: Seq<char>|
            exists|i: int|
                start <= i < end && (#[trigger] postings[i]).id@ == id && between(
                    postings[i].key@,
                    low,
                    high,
                    closed,
                ),
    )
}

impl MetadataIndex {
    /// The position of the first posting whose key does not come before `key`.
    fn lower_bound(&self, key: &Key) -> (at: usize)
        requires
            self.wf(),
        ensures
            at <= self.postings@.len(),
            forall|i: int| 0 <= i < at ==> key_less((#[trigger] self.postings@[i]).key@, key@),
            forall|i: int|
                at <= i < self.postings@.len() ==> !key_less(
                    (#[trigger] self.postings@[i]).key@,
                    key@,
                ),
    {
        let mut low: usize = 0;
        let mut high: usize = self.postings.len();
        while low < high
            invariant
                self.wf(),
                low <= high <= self.postings@.len(),
                forall|i: int| 0 <= i < low ==> key_less((#[trigger] self.postings@[i]).key@, key@),
                forall|i: int|
                    high <= i < self.postings@.len() ==> !key_less(
                        (#[trigger] self.postings@[i]).key@,
                        key@,
                    ),
            decreases high - low,
        {
            let middle: usize = low + (high - low) / 2;
            let ghost pivot = self.postings@[middle as int].key@;
            if self.postings[middle].key.comes_before(key) {
                proof {
                    assert forall|i: int| 0 <= i < middle + 1 implies key_less(
                        (#[trigger] self.postings@[i]).key@,
                        key@,
                    ) by {
                        if i < middle {
                            assert(Posting::at_most(
                                self.postings@[i]@,
                                self.postings@[middle as int]@,
                            ));
                            lemma_key_total(self.postings@[i].key@, pivot);
                            if self.postings@[i].key@ != pivot {
                                lemma_key_transitive(self.postings@[i].key@, pivot, key@);
                            }
                        }
                    }
                }
                low = middle + 1;
            } else {
                proof {
                    assert forall|i: int| middle <= i < self.postings@.len() implies !key_less(
                        (#[trigger] self.postings@[i]).key@,
                        key@,
                    ) by {
                        if i > middle {
                            assert(Posting::at_most(
                                self.postings@[middle as int]@,
                                self.postings@[i]@,
                            ));
                            let other = self.postings@[i].key@;
                            lemma_key_total(pivot, other);
                            if key_less(other, key@) && pivot != other {
                                lemma_key_transitive(pivot, other, key@);
                            }
                        }
                    }
                }
                high = middle;
            }
        }
        low
    }

    /// The IDs that file a key between two others.
    fn gather(&self, low: &Key, high: &Key, closed: bool) -> (ids: IdSet)
        requires
            self.wf(),
        ensures
            ids.wf(),
            ids@ == gathered(
                self.postings@,
                0,
                self.postings@.len() as int,
                low@,
                high@,
                closed,
            ),
    {
        let start: usize = self.lower_bound(low);
        let mut ids = IdSet::new();
        let mut i: usize = start;
        let ghost postings = self.postings@;
        assert(ids@ =~= gathered(postings, start as int, start as int, low@, high@, closed));
        while i < self.postings.len()
            invariant_except_break
                self.wf(),
                postings == self.postings@,
                start <= i <= postings.len(),
                ids.wf(),
                ids@ == gathered(postings, start as int, i as int, low@, high@, closed),
                forall|x: int|
                    start <= x < postings.len() ==> !key_less(
                        (#[trigger] postings[x]).key@,
                        low@,
                    ),
            ensures
                start <= i <= postings.len(),
                ids.wf(),
                ids@ == gathered(postings, start as int, i as int, low@, high@, closed),
                forall|x: int|
                    i <= x < postings.len() ==> !between(
                        (#[trigger] postings[x]).key@,
                        low@,
                        high@,
                        closed,
                    ),
            decreases postings.len() - i,
        {
            let key = &self.postings[i].key;
            let inside: bool = if closed {
                !high.comes_before(key)
            } else {
                key.comes_before(high)
            };
            if !inside {
                proof {
                    let pivot = postings[i as int].key@;
                    assert forall|x: int| i <= x < postings.len() implies !between(
                        (#[trigger] postings[x]).key@,
                        low@,
                        high@,
                        closed,
                    ) by {
                        let other = postings[x].key@;
                        if x > i {
                            assert(Posting::at_most(postings[i as int]@, postings[x]@));
                            lemma_key_total(pivot, other);
                            lemma_key_total(pivot, high@);
                            lemma_key_total(other, high@);
                            if pivot != other {
                                if closed {
                                    lemma_key_transitive(high@, pivot, other);
                                } else if key_less(other, high@) {
                                    lemma_key_transitive(pivot, other, high@);
                                }
                            }
                        }
                    }
                }
                break ;
            }
            let ghost before = ids@;
            ids.insert(self.postings[i].id.clone());
            proof {
                assert forall|id: Seq<char>| #[trigger]
                    ids@.contains(id) <==> gathered(
                        postings,
                        start as int,
                        i + 1,
                        low@,
                        high@,
                        closed,
                    ).contains(id) by {
                    if before.contains(id) {
                        let x = choose|x: int|
                            start <= x < i && (#[trigger] postings[x]).id@ == id && between(
                                postings[x].key@,
                                low@,
                                high@,
                                closed,
                            );
                        assert(start <= x < i + 1);
                    }
                    if id == postings[i as int].id@ {
                        assert(between(postings[i as int].key@, low@, high@, closed));
                    }
                }
                assert(ids@ =~= gathered(postings, start as int, i + 1, low@, high@, closed));
            }
            i = i + 1;
        }
        proof {
            assert forall|id: Seq<char>| #[trigger]
                ids@.contains(id) <==> gathered(
                    postings,
                    0,
                    postings.len() as int,
                    low@,
                    high@,
                    closed,
                ).contains(id) by {
                if gathered(postings, 0, postings.len() as int, low@, high@, closed).contains(id) {
                    let x = choose|x: int|
                        0 <= x < postings.len() && (#[trigger] postings[x]).id@ == id && between(
                            postings[x].key@,
                            low@,
                            high@,
                            closed,
                        );
                    assert(start <= x < i);
                }
                if ids@.contains(id) {
                    let x = choose|x: int|
                        start <= x < i && (#[trigger] postings[x]).id@ == id && between(
                            postings[x].key@,
                            low@,
                            high@,
                            closed,
                        );
                    assert(0 <= x < postings.len());
                }
            }
            assert(ids@ =~= gathered(postings, 0, postings.len() as int, low@, high@, closed));
        }
        ids
    }

    /// The gathered IDs in terms of the catalog: those that file a key between two others.
    proof fn lemma_gathered(&self, low: KeyView, high: KeyView, closed: bool, id: Seq<char>)
        requires
            self.wf(),
        ensures
            gathered(self.postings@, 0, self.postings@.len() as int, low, high, closed).contains(id)
                <==> self@.contains_key(id) && exists|key: KeyView| #[trigger]
                files(self@[id], key) && between(key, low, high, closed),
    {
        let postings = self.postings@;
        if gathered(postings, 0, postings.len() as int, low, high, closed).contains(id) {
            let x = choose|x: int|
                0 <= x < postings.len() && (#[trigger] postings[x]).id@ == id && between(
                    postings[x].key@,
                    low,
                    high,
                    closed,
                );
            assert(files(self@[id], postings[x].key@));
        }
        if self@.contains_key(id) && exists|key: KeyView| #[trigger]
            files(self@[id], key) && between(key, low, high, closed) {
            let key = choose|key: KeyView| #[trigger]
                files(self@[id], key) && between(key, low, high, closed);
            assert(posted(postings, key, id));
            let x = choose|x: int| 0 <= x < postings.len() && (#[trigger] postings[x])@ == (key, id);
            assert(postings[x].id@ == id && postings[x].key@ == key);
        }
    }

    fn with_value(&self, field: &String, value: &Value) -> (ids: IdSet)
        requires
            self.wf(),
        ensures
            ids.wf(),
            forall|id: Seq<char>| #[trigger]
                ids@.contains(id) <==> self@.contains_key(id) && match lookup(self@[id], field@) {
                    Some(stored) => stored.equals(value@),
                    None => false,
                },
    {
        match Key::of_scalar(field, value) {
            None => {
                let ids = IdSet::new();
                proof {
                    assert forall|id: Seq<char>| #[trigger]
                        ids@.contains(id) <==> self@.contains_key(id) && match lookup(
                        self@[id],
                        field@,
                    ) {
                        Some(stored) => stored.equals(value@),
                        None => false,
                    } by {}
                }
                ids
            },
            Some(key) => {
                let ids = self.gather(&key, &key, true);
                proof {
                    let k = key@;
                    assert forall|id: Seq<char>| #[trigger]
                        ids@.contains(id) <==> self@.contains_key(id) && match lookup(
                        self@[id],
                        field@,
                    ) {
                        Some(stored) => stored.equals(value@),
                        None => false,
                    } by {
                        self.lemma_gathered(k, k, true, id);
                        if self@.contains_key(id) {
                            let metadata = self@[id];
                            assert(ascending(metadata));
                            if ids@.contains(id) {
                                let other = choose|other: KeyView| #[trigger]
                                    files(metadata, other) && between(other, k, k, true);
                                lemma_key_total(other, k);
                                let j = choose|j: int| #[trigger] filed_at(metadata, other, j);
                                lemma_lookup_entry(metadata, j);
                            }
                            match lookup(metadata, field@) {
                                Some(stored) => {
                                    if stored.equals(value@) {
                                        lemma_place(metadata, field@);
                                        let j = place(metadata, field@);
                                        assert(filed_at(metadata, k, j));
                                        lemma_key_total(k, k);
                                        assert(files(metadata, k) && between(k, k, k, true));
                                    }
                                },
                                None => {},
                            }
                        }
                    }
                }
                ids
            },
        }
    }

    fn in_range(&self, field: &String, gte: Option<u64>, lt: Option<u64>) -> (ids: IdSet)
        requires
            self.wf(),
        ensures
            ids.wf(),
            forall|id: Seq<char>| #[trigger]
                ids@.contains(id) <==> self@.contains_key(id) && match lookup(self@[id], field@) {
                    Some(stored) => match numeric(stored) {
                        Some(number) => within(number, gte, lt),
                        None => false,
                    },
                    None => false,
                },
    {
        let unordered: bool = match gte {
            Some(lower) => is_double_nan(lower),
            None => false,
        } || match lt {
            Some(upper) => is_double_nan(upper),
            None => false,
        };
        let inverted: bool = match gte {
            Some(lower) => match lt {
                Some(upper) => is_double_at_least(lower, upper),
                None => false,
            },
            None => false,
        };
        if unordered || inverted {
            let ids = IdSet::new();
            proof {
                assert forall|id: Seq<char>| #[trigger]
                    ids@.contains(id) <==> self@.contains_key(id) && match lookup(
                    self@[id],
                    field@,
                ) {
                    Some(stored) => match numeric(stored) {
                        Some(number) => within(number, gte, lt),
                        None => false,
                    },
                    None => false,
                } by {}
            }
            return ids;
        }
        let none = String::new();
        assert(none@ =~= Seq::empty());
        let low = Key {
            field: field.clone(),
            kind: 4,
            number: match gte {
                Some(lower) => double_place(lower),
                None => i128::MIN,
            },
            text: none.clone(),
        };
        let high = Key {
            field: field.clone(),
            kind: 4,
            number: match lt {
                Some(upper) => double_place(upper),
                None => i128::MAX,
            },
            text: none,
        };
        let ids = self.gather(&low, &high, false);
        proof {
            assert forall|id: Seq<char>| #[trigger]
                ids@.contains(id) <==> self@.contains_key(id) && match lookup(self@[id], field@) {
                Some(stored) => match numeric(stored) {
                    Some(number) => within(number, gte, lt),
                    None => false,
                },
                None => false,
            } by {
                self.lemma_gathered(low@, high@, false, id);
                if self@.contains_key(id) {
                    let metadata = self@[id];
                    assert(ascending(metadata));
                    if ids@.contains(id) {
                        let key = choose|key: KeyView| #[trigger]
                            files(metadata, key) && between(key, low@, high@, false);
                        lemma_text_total(key.field, field@);
                        let j = choose|j: int| #[trigger] filed_at(metadata, key, j);
                        lemma_empty_text_is_least(key.text);
                        lemma_lookup_entry(metadata, j);
                        lemma_numeric_finite(metadata[j].1);
                    }
                    match lookup(metadata, field@) {
                        Some(stored) => match numeric(stored) {
                            Some(number) => {
                                if within(number, gte, lt) {
                                    lemma_place(metadata, field@);
                                    let j = place(metadata, field@);
                                    let key = range_key(field@, stored)->0;
                                    assert(filed_at(metadata, key, j));
                                    lemma_text_total(field@, field@);
                                    lemma_empty_text_is_least(key.text);
                                    assert(files(metadata, key) && between(
                                        key,
                                        low@,
                                        high@,
                                        false,
                                    ));
                                }
                            },
                            None => {},
                        },
                        None => {},
                    }
                }
            }
        }
        ids
    }

    /// The IDs whose metadata the filter admits.
    #[verifier::loop_isolation(false)]
    pub fn candidates(&self, filter: &Filter) -> (ids: IdSet)
        requires
            self.wf(),
        ensures
            ids.wf(),
            ids@ == matching(self@, *filter),
        decreases filter,
    {
        match filter {
            Filter::MatchAll => {
                let ids = self.all_ids.duplicate();
                assert(ids@ =~= matching(self@, *filter));
                ids
            },
            Filter::Eq { field, value } => {
                let ids = self.with_value(field, value);
                assert(ids@ =~= matching(self@, *filter));
                ids
            },
            Filter::Range { field, gte, lt } => {
                let ids = self.in_range(field, *gte, *lt);
                assert(ids@ =~= matching(self@, *filter));
                ids
            },
            Filter::And(filters) => {
                let mut ids = self.all_ids.duplicate();
                let mut i: usize = 0;
                while i < filters.len() && !ids.is_empty()
                    invariant
                        i <= filters.len(),
                        ids.wf(),
                        forall|id: Seq<char>| #[trigger]
                            ids@.contains(id) <==> self@.contains_key(id) && forall|x: int|
                                0 <= x < i ==> (#[trigger] filters@[x]).holds(self@[id]),
                    decreases filters.len() - i,
                {
                    let next = self.candidates(&filters[i]);
                    let ghost before = ids@;
                    ids = ids.compared(&next, true);
                    proof {
                        assert forall|id: Seq<char>| #[trigger]
                            ids@.contains(id) <==> self@.contains_key(id) && forall|x: int|
                                0 <= x < i + 1 ==> (#[trigger] filters@[x]).holds(self@[id]) by {
                            assert(ids@.contains(id) <==> before.contains(id) && next@.contains(
                                id,
                            ));
                        }
                    }
                    i = i + 1;
                }
                proof {
                    ids.lemma_order();
                    if i < filters.len() {
                        assert(ids@ =~= Set::empty());
                        assert forall|id: Seq<char>| !matching(self@, *filter).contains(id) by {
                            assert(!ids@.contains(id));
                        }
                    }
                    assert(ids@ =~= matching(self@, *filter));
                }
                ids
            },
            Filter::Or(filters) => {
                let mut ids = IdSet::new();
                let mut i: usize = 0;
                while i < filters.len()
                    invariant
                        i <= filters.len(),
                        ids.wf(),
                        forall|id: Seq<char>| #[trigger]
                            ids@.contains(id) <==> self@.contains_key(id) && exists|x: int|
                                0 <= x < i && (#[trigger] filters@[x]).holds(self@[id]),
                    decreases filters.len() - i,
                {
                    let next = self.candidates(&filters[i]);
                    let ghost before = ids@;
                    ids.extend(&next);
                    proof {
                        assert forall|id: Seq<char>| #[trigger]
                            ids@.contains(id) <==> self@.contains_key(id) && exists|x: int|
                                0 <= x < i + 1 && (#[trigger] filters@[x]).holds(self@[id]) by {
                            assert(ids@.contains(id) <==> before.contains(id) || next@.contains(
                                id,
                            ));
                            if before.contains(id) {
                                let x = choose|x: int|
                                    0 <= x < i && (#[trigger] filters@[x]).holds(self@[id]);
                                assert(0 <= x < i + 1);
                            }
                        }
                    }
                    i = i + 1;
                }
                assert(ids@ =~= matching(self@, *filter));
                ids
            },
            Filter::Not(inner) => {
                let excluded = self.candidates(inner);
                let ids = self.all_ids.compared(&excluded, false);
                assert(ids@ =~= matching(self@, *filter));
                ids
            },
        }
    }
}

/// In ordered metadata an entry is what a lookup of its key finds.
pub proof fn lemma_lookup_entry(metadata: Entries, j: int)
    requires
        ascending(metadata),
        0 <= j < metadata.len(),
    ensures
        lookup(metadata, metadata[j].0) == Some(metadata[j].1),
{
    let key = metadata[j].0;
    lemma_place(metadata, key);
    let at = place(metadata, key);
    lemma_text_total(key, key);
    if at < j {
        assert(text_less(metadata[at].0, metadata[j].0));
    }
    if j < at {
        assert(text_less(metadata[j].0, key));
    }
}

proof fn lemma_numeric_finite(value: ValueView)
    ensures
        numeric(value) matches Some(bits) ==> double_finite(bits),
{
    if let ValueView::Integer(n) = value {
        lemma_integer_double_finite(n);
    }
}

proof fn lemma_empty_text_is_least(text: Seq<char>)
    ensures
        !text_less(text, Seq::empty()),
{
}

proof fn lemma_same_postings(a: Seq<Posting>, b: Seq<Posting>)
    requires
        a.to_multiset() == b.to_multiset(),
    ensures
        forall|key: KeyView, id: Seq<char>|
            #![trigger posted(a, key, id)]
            #![trigger posted(b, key, id)]
            posted(a, key, id) <==> posted(b, key, id),
{
    assert forall|key: KeyView, id: Seq<char>|
        #![trigger posted(a, key, id)]
        #![trigger posted(b, key, id)]
        posted(a, key, id) <==> posted(b, key, id) by {
        if posted(a, key, id) {
            let i = choose|i: int| 0 <= i < a.len() && (#[trigger] a[i])@ == (key, id);
            vstd::seq_lib::to_multiset_contains(a, a[i]);
            vstd::seq_lib::to_multiset_contains(b, a[i]);
            let j = choose|j: int| 0 <= j < b.len() && b[j] == a[i];
            assert(b[j]@ == (key, id));
        }
        if posted(b, key, id) {
            let i = choose|i: int| 0 <= i < b.len() && (#[trigger] b[i])@ == (key, id);
            vstd::seq_lib::to_multiset_contains(b, b[i]);
            vstd::seq_lib::to_multiset_contains(a, b[i]);
            let j = choose|j: int| 0 <= j < a.len() && a[j] == b[i];
            assert(a[j]@ == (key, id));
        }
    }
}

/// The points that a filter admits are those whose metadata meets it: matching a filter
/// and its denial parts the points, a conjunction gives what all its parts give, and an
/// alternative what one of its parts gives.
pub proof fn law_matching_follows_the_filter(catalog: Catalog, filter: Filter, id: Seq<char>)
    ensures
        matching(catalog, filter).contains(id) ==> catalog.contains_key(id),
        matching(catalog, Filter::MatchAll) == catalog.dom(),
        filter is Not ==> (matching(catalog, filter).contains(id) <==> catalog.contains_key(id)
            && !matching(catalog, *filter->Not_0).contains(id)),
        filter is And ==> (matching(catalog, filter).contains(id) <==> catalog.contains_key(id)
            && forall|i: int|
            0 <= i < filter->And_0.len() ==> matching(
                catalog,
                #[trigger] filter->And_0[i],
            ).contains(id)),
        filter is Or ==> (matching(catalog, filter).contains(id) <==> exists|i: int|
            0 <= i < filter->Or_0.len() && matching(
                catalog,
                #[trigger] filter->Or_0[i],
            ).contains(id)),
{
    assert(matching(catalog, Filter::MatchAll) =~= catalog.dom());
    if filter is And {
        law_conjunctions_ask_for_every_part(filter, catalog[id]);
    }
    if filter is Or {
        law_alternatives_ask_for_one_part(filter, catalog[id]);
    }
}

/// A catalog of points holds the metadata of each point under its ID, where no ID occurs
/// twice, and nothing else.
pub proof fn law_catalogs_hold_the_metadata(points: Seq<PointView>, i: int)
    requires
        0 <= i < points.len(),
        forall|a: int, b: int|
            0 <= a < b < points.len() ==> (#[trigger] points[a]).id != (#[trigger] points[b]).id,
    ensures
        catalog_of(points, points.len() as int).contains_key(points[i].id),
        catalog_of(points, points.len() as int)[points[i].id] == points[i].metadata,
        forall|id: Seq<char>| #[trigger]
            catalog_of(points, points.len() as int).contains_key(id) ==> exists|j: int|
                0 <= j < points.len() && (#[trigger] points[j]).id == id,
{
    lemma_catalog_holds(points, points.len() as int, i);
}

proof fn lemma_catalog_holds(points: Seq<PointView>, count: int, i: int)
    requires
        0 <= count <= points.len(),
        0 <= i,
        forall|a: int, b: int|
            0 <= a < b < points.len() ==> (#[trigger] points[a]).id != (#[trigger] points[b]).id,
    ensures
        i < count ==> catalog_of(points, count).contains_key(points[i].id) && catalog_of(
            points,
            count,
        )[points[i].id] == points[i].metadata,
        forall|id: Seq<char>| #[trigger]
            catalog_of(points, count).contains_key(id) ==> exists|j: int|
                0 <= j < count && (#[trigger] points[j]).id == id,
    decreases count,
{
    if count > 0 {
        lemma_catalog_holds(points, count - 1, i);
        if i < count - 1 {
            assert(points[i].id != points[count - 1].id);
        }
        assert forall|id: Seq<char>| #[trigger] catalog_of(points, count).contains_key(
            id,
        ) implies exists|j: int| 0 <= j < count && (#[trigger] points[j]).id == id by {
            if id != points[count - 1].id {
                assert(catalog_of(points, count - 1).contains_key(id));
                let j = choose|j: int| 0 <= j < count - 1 && (#[trigger] points[j]).id == id;
                assert(points[j].id == id);
            }
        }
    }
}

} // verus!
