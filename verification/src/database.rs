//! A catalog of named collections.
//!
//! The library keeps the names and decides what may be created, looked up, backed
//! up and restored; what a collection is, and how it is opened, is the caller's.
use crate::collection::{views, CollectionConfig};
use crate::concurrent::Interval;
use crate::error::{Error, ErrorView, Result};
use crate::persistence::Durability;
use crate::sort::{arranged, sort, Sortable};
use crate::text::{
    compare_text, join, lemma_text_irreflexive, lemma_text_total, lemma_text_transitive,
    text_at_most, text_less, Order,
};
use vstd::prelude::*;
use vstd::string::*;

verus! {

/// How the collections of a database are kept.
#[derive(Debug, Clone, Copy, PartialEq, Eq, Structural)]
pub struct DatabaseConfig {
    pub durability: Durability,
    pub flush_interval: Interval,
    pub dirty_point_threshold: usize,
}

impl Default for DatabaseConfig {
    fn default() -> (config: DatabaseConfig)
        ensures
            config == (DatabaseConfig {
                durability: Durability::Sync,
                flush_interval: Interval { seconds: 1, nanoseconds: 0 },
                dirty_point_threshold: 10_000,
            }),
    {
        DatabaseConfig {
            durability: Durability::Sync,
            flush_interval: Interval { seconds: 1, nanoseconds: 0 },
            dirty_point_threshold: 10_000,
        }
    }
}

/// A collection in a listing.
#[derive(Debug, PartialEq, Eq)]
pub struct CollectionSummary {
    pub name: String,
    pub config: CollectionConfig,
    pub points: usize,
    pub latest_sequence: u64,
    pub pending_points: usize,
}

/// What a collection tells of itself.
#[derive(Debug, Clone, Copy, PartialEq, Eq, Structural)]
pub struct CollectionState {
    pub config: CollectionConfig,
    pub points: usize,
    pub latest_sequence: u64,
    pub pending_points: usize,
}

/// A summary, as contracts see it.
pub struct SummaryView {
    pub name: Seq<char>,
    pub state: CollectionState,
}

impl View for CollectionSummary {
    type V = SummaryView;

    open spec fn view(&self) -> SummaryView {
        SummaryView {
            name: self.name@,
            state: CollectionState {
                config: self.config,
                points: self.points,
                latest_sequence: self.latest_sequence,
                pending_points: self.pending_points,
            },
        }
    }
}

/// A letter or a digit of ASCII, a hyphen or an underscore.
pub open spec fn name_char(c: char) -> bool {
    'a' <= c <= 'z' || 'A' <= c <= 'Z' || '0' <= c <= '9' || c == '-' || c == '_'
}

/// A name for a collection or a backup. No such name is a path.
pub open spec fn valid_name(name: Seq<char>) -> bool {
    &&& 1 <= name.len() <= 64
    &&& forall|i: int| 0 <= i < name.len() ==> name_char(#[trigger] name[i])
}

/// What is said of a name that is not one.
pub open spec fn bad_name() -> ErrorView {
    ErrorView::InvalidQuery("collection names must be 1-64 ASCII letters, digits, '-' or '_'"@)
}

/// Whether a name may be used.
pub fn validate_collection_name(name: &str) -> (result: Result<()>)
    ensures
        valid_name(name@) ==> result is Ok,
        !valid_name(name@) ==> result is Err && result->Err_0@ == bad_name(),
{
    let length: usize = name.unicode_len();
    let mut valid: bool = 1 <= length && length <= 64;
    let mut i: usize = 0;
    while i < length && valid
        invariant
            i <= length,
            length == name@.len(),
            valid ==> 1 <= length <= 64,
            valid ==> forall|j: int| 0 <= j < i ==> name_char(#[trigger] name@[j]),
            !valid ==> !valid_name(name@),
        decreases length - i,
    {
        let c: char = name.get_char(i);
        if !(('a' <= c && c <= 'z') || ('A' <= c && c <= 'Z') || ('0' <= c && c <= '9') || c == '-'
            || c == '_') {
            assert(!name_char(name@[i as int]));
            valid = false;
        }
        i = i + 1;
    }
    if valid {
        Ok(())
    } else {
        Err(
            Error::InvalidQuery("collection names must be 1-64 ASCII letters, digits, '-' or '_'"),
        )
    }
}

/// Whether a database can be kept so.
pub fn validate_database_config(config: DatabaseConfig) -> (result: Result<()>)
    ensures
        config.flush_interval.zero() || config.dirty_point_threshold == 0 ==> result is Err
            && result->Err_0@ == ErrorView::InvalidConfig(
            "flush interval and dirty point threshold must be positive"@,
        ),
        !config.flush_interval.zero() && config.dirty_point_threshold > 0 ==> result is Ok,
{
    if config.flush_interval.is_zero() || config.dirty_point_threshold == 0 {
        return Err(
            Error::InvalidConfig("flush interval and dirty point threshold must be positive"),
        );
    }
    Ok(())
}

/// An entry of a directory, where collections or backups are looked for.
pub struct FoundEntry {
    pub name: String,
    pub is_directory: bool,
    pub has_settings: bool,
}

/// A directory with a name and settings of a collection.
pub open spec fn is_collection(entry: FoundEntry) -> bool {
    entry.is_directory && entry.has_settings && valid_name(entry.name@)
}

/// The names of the entries that are collections.
pub open spec fn collection_names(entries: Seq<FoundEntry>) -> Seq<Seq<char>>
    decreases entries.len(),
{
    if entries.len() == 0 {
        seq![]
    } else {
        let front = collection_names(entries.drop_last());
        if is_collection(entries.last()) {
            front.push(entries.last().name@)
        } else {
            front
        }
    }
}

impl Sortable for String {
    open spec fn at_most(a: Seq<char>, b: Seq<char>) -> bool {
        text_at_most(a, b)
    }

    proof fn lemma_total(a: Seq<char>, b: Seq<char>) {
        lemma_text_total(a, b);
    }

    proof fn lemma_transitive(a: Seq<char>, b: Seq<char>, c: Seq<char>) {
        if a != b && b != c {
            lemma_text_transitive(a, b, c);
        }
    }

    fn is_at_most(&self, other: &String) -> (r: bool) {
        proof {
            lemma_text_total(self@, other@);
        }
        match compare_text(self.as_str(), other.as_str()) {
            Order::Greater => false,
            _ => true,
        }
    }
}

/// The names of collections among entries, in order.
pub open spec fn sorted_names(entries: Seq<FoundEntry>, names: Seq<String>) -> bool {
    &&& arranged(names, true)
    &&& exists|listed: Seq<String>| #[trigger]
        views(listed) == collection_names(entries) && names.to_multiset() == listed.to_multiset()
}

/// The names of the collections, or backups, among the entries of a directory, in
/// order.
pub fn discover(entries: &Vec<FoundEntry>) -> (names: Vec<String>)
    ensures
        sorted_names(entries@, names@),
{
    let mut names: Vec<String> = Vec::new();
    let mut i: usize = 0;
    proof {
        assert(entries@.subrange(0, 0) =~= Seq::empty());
        assert(views(names@) =~= Seq::empty());
    }
    while i < entries.len()
        invariant
            i <= entries@.len(),
            views(names@) == collection_names(entries@.subrange(0, i as int)),
        decreases entries.len() - i,
    {
        let ghost before = views(names@);
        assert(entries@.subrange(0, i + 1).drop_last() =~= entries@.subrange(0, i as int));
        let entry = &entries[i];
        if entry.is_directory && entry.has_settings {
            match validate_collection_name(entry.name.as_str()) {
                Ok(_) => {
                    names.push(entry.name.clone());
                    assert(views(names@) =~= before.push(entry.name@));
                },
                Err(_) => {},
            }
        }
        i = i + 1;
    }
    assert(entries@.subrange(0, i as int) =~= entries@);
    let ghost listed = names@;
    let sorted = sort(names, true);
    assert(views(listed) == collection_names(entries@) && sorted@.to_multiset()
        == listed.to_multiset());
    sorted
}

/// A database: how its collections are kept, and the collections by name.
pub struct DatabaseView<T> {
    pub config: DatabaseConfig,
    pub collections: Map<Seq<char>, T>,
}

/// A catalog of collections.
pub struct Database<T> {
    config: DatabaseConfig,
    collections: Vec<(String, T)>,
}

spec fn in_name_order<T>(list: Seq<(String, T)>) -> bool {
    forall|i: int, j: int|
        0 <= i < j < list.len() ==> text_less((#[trigger] list[i]).0@, (#[trigger] list[j]).0@)
}

spec fn by_name<T>(list: Seq<(String, T)>) -> Map<Seq<char>, T>
    decreases list.len(),
{
    if list.len() == 0 {
        Map::empty()
    } else {
        by_name(list.drop_last()).insert(list.last().0@, list.last().1)
    }
}

/// Every collection before a name has told its state.
pub open spec fn told_before<T, S: Fn(&T) -> Result<CollectionState>>(
    collections: Map<Seq<char>, T>,
    state: S,
    name: Seq<char>,
) -> bool {
    forall|other: Seq<char>| #[trigger]
        collections.contains_key(other) && text_less(other, name) ==> exists|
            told: CollectionState,
        |
            state.ensures((&collections[other],), Ok(told))
}

proof fn lemma_by_name<T>(list: Seq<(String, T)>)
    requires
        in_name_order(list),
    ensures
        forall|i: int|
            0 <= i < list.len() ==> by_name(list).contains_key((#[trigger] list[i]).0@) && by_name(
                list,
            )[list[i].0@] == list[i].1,
        forall|name: Seq<char>| #[trigger]
            by_name(list).contains_key(name) ==> exists|i: int|
                0 <= i < list.len() && (#[trigger] list[i]).0@ == name,
    decreases list.len(),
{
    if list.len() > 0 {
        let rest = list.drop_last();
        let last = list.len() - 1;
        assert forall|i: int, j: int| 0 <= i < j < rest.len() implies text_less(
            (#[trigger] rest[i]).0@,
            (#[trigger] rest[j]).0@,
        ) by {
            assert(text_less(list[i].0@, list[j].0@));
        }
        lemma_by_name(rest);
        assert forall|i: int| 0 <= i < list.len() implies by_name(list).contains_key(
            (#[trigger] list[i]).0@,
        ) && by_name(list)[list[i].0@] == list[i].1 by {
            if i < last {
                assert(list[i] == rest[i]);
                assert(text_less(list[i].0@, list[last].0@));
                lemma_text_irreflexive(list[i].0@);
            }
        }
        assert forall|name: Seq<char>| #[trigger] by_name(list).contains_key(name) implies exists|
            i: int,
        | 0 <= i < list.len() && (#[trigger] list[i]).0@ == name by {
            if name == list[last].0@ {
            } else {
                assert(by_name(rest).contains_key(name));
                let i = choose|i: int| 0 <= i < rest.len() && (#[trigger] rest[i]).0@ == name;
                assert(list[i].0@ == name);
            }
        }
    }
}

/// Putting a collection where its name belongs puts it under its name.
proof fn lemma_placed<T>(before: Seq<(String, T)>, at: int, entry: (String, T))
    requires
        in_name_order(before),
        0 <= at <= before.len(),
        forall|j: int| 0 <= j < at ==> text_less((#[trigger] before[j]).0@, entry.0@),
        forall|j: int| at <= j < before.len() ==> text_less(entry.0@, (#[trigger] before[j]).0@),
    ensures
        in_name_order(before.insert(at, entry)),
        by_name(before.insert(at, entry)) == by_name(before).insert(entry.0@, entry.1),
        !by_name(before).contains_key(entry.0@),
{
    let after = before.insert(at, entry);
    lemma_by_name(before);
    assert forall|i: int, j: int| 0 <= i < j < after.len() implies text_less(
        (#[trigger] after[i]).0@,
        (#[trigger] after[j]).0@,
    ) by {
        let a = if i < at {
            i
        } else {
            i - 1
        };
        let b = if j < at {
            j
        } else {
            j - 1
        };
        if i == at {
            assert(after[j] == before[b]);
        } else if j == at {
            assert(after[i] == before[a]);
        } else {
            assert(after[i] == before[a] && after[j] == before[b]);
            assert(text_less(before[a].0@, before[b].0@));
        }
    }
    lemma_by_name(after);
    if by_name(before).contains_key(entry.0@) {
        let i = choose|i: int| 0 <= i < before.len() && (#[trigger] before[i]).0@ == entry.0@;
        lemma_text_irreflexive(entry.0@);
    }
    let wanted = by_name(before).insert(entry.0@, entry.1);
    assert forall|name: Seq<char>|
        #![trigger by_name(after).contains_key(name)]
        #![trigger wanted.contains_key(name)]
        by_name(after).contains_key(name) == wanted.contains_key(name) && (wanted.contains_key(
            name,
        ) ==> by_name(after)[name] == wanted[name]) by {
        if by_name(after).contains_key(name) {
            let i = choose|i: int| 0 <= i < after.len() && (#[trigger] after[i]).0@ == name;
            if i != at {
                let a = if i < at {
                    i
                } else {
                    i - 1
                };
                assert(after[i] == before[a]);
                assert(by_name(before).contains_key(before[a].0@));
            }
        }
        if wanted.contains_key(name) {
            if name == entry.0@ {
                assert(after[at].0@ == name);
            } else {
                let i = choose|i: int| 0 <= i < before.len() && (#[trigger] before[i]).0@ == name;
                let b = if i < at {
                    i
                } else {
                    i + 1
                };
                assert(after[b] == before[i]);
                assert(by_name(after).contains_key(after[b].0@));
            }
        }
    }
    assert(by_name(after) =~= wanted);
}

impl<T> Database<T> {
    /// What the database holds.
    pub closed spec fn view(&self) -> DatabaseView<T> {
        DatabaseView { config: self.config, collections: by_name(self.collections@) }
    }

    /// The names are in order, and every one is valid.
    pub closed spec fn wf(&self) -> bool {
        &&& in_name_order(self.collections@)
        &&& forall|i: int|
            0 <= i < self.collections@.len() ==> valid_name((#[trigger] self.collections@[i]).0@)
    }

    /// Every collection has a valid name.
    pub proof fn law_collections_have_valid_names(&self)
        requires
            self.wf(),
        ensures
            forall|name: Seq<char>| #[trigger]
                self@.collections.contains_key(name) ==> valid_name(name),
    {
        lemma_by_name(self.collections@);
        assert forall|name: Seq<char>| #[trigger]
            self@.collections.contains_key(name) implies valid_name(name) by {
            let i = choose|i: int|
                0 <= i < self.collections@.len() && (#[trigger] self.collections@[i]).0@ == name;
            assert(valid_name(self.collections@[i].0@));
        }
    }

    /// A database without collections.
    pub fn open(config: DatabaseConfig) -> (result: Result<Database<T>>)
        ensures
            match result {
                Ok(database) => {
                    &&& !config.flush_interval.zero() && config.dirty_point_threshold > 0
                    &&& database.wf()
                    &&& database@ == (DatabaseView::<T> { config, collections: Map::empty() })
                },
                Err(error) => {
                    &&& config.flush_interval.zero() || config.dirty_point_threshold == 0
                    &&& error@ == ErrorView::InvalidConfig(
                        "flush interval and dirty point threshold must be positive"@,
                    )
                },
            },
    {
        validate_database_config(config)?;
        Ok(Database { config, collections: Vec::new() })
    }

    /// How the collections are kept.
    pub fn config(&self) -> (config: DatabaseConfig)
        ensures
            config == self@.config,
    {
        self.config
    }

    /// Where a name stands, or belongs.
    fn place(&self, name: &str) -> (place: (usize, bool))
        requires
            self.wf(),
        ensures
            place.0 <= self.collections@.len(),
            place.1 ==> place.0 < self.collections@.len() && self.collections@[place.0 as int].0@
                == name@,
            !place.1 ==> {
                &&& forall|j: int|
                    0 <= j < place.0 ==> text_less((#[trigger] self.collections@[j]).0@, name@)
                &&& forall|j: int|
                    place.0 <= j < self.collections@.len() ==> text_less(
                        name@,
                        (#[trigger] self.collections@[j]).0@,
                    )
            },
            place.1 == self@.collections.contains_key(name@),
    {
        let mut at: usize = 0;
        proof {
            lemma_by_name(self.collections@);
        }
        while at < self.collections.len()
            invariant
                self.wf(),
                at <= self.collections@.len(),
                forall|j: int|
                    0 <= j < at ==> text_less((#[trigger] self.collections@[j]).0@, name@),
                forall|i: int|
                    0 <= i < self.collections@.len() ==> self@.collections.contains_key(
                        (#[trigger] self.collections@[i]).0@,
                    ),
                forall|other: Seq<char>| #[trigger]
                    self@.collections.contains_key(other) ==> exists|i: int|
                        0 <= i < self.collections@.len() && (#[trigger] self.collections@[i]).0@
                            == other,
            decreases self.collections.len() - at,
        {
            match compare_text(self.collections[at].0.as_str(), name) {
                Order::Less => {},
                Order::Equal => {
                    return (at, true);
                },
                Order::Greater => {
                    proof {
                        let list = self.collections@;
                        assert forall|j: int| at <= j < list.len() implies text_less(
                            name@,
                            (#[trigger] list[j]).0@,
                        ) by {
                            if j > at {
                                assert(text_less(list[at as int].0@, list[j].0@));
                                lemma_text_transitive(name@, list[at as int].0@, list[j].0@);
                            }
                        }
                        lemma_not_there(list, at as int, name@);
                    }
                    return (at, false);
                },
            }
            at = at + 1;
        }
        proof {
            lemma_not_there(self.collections@, at as int, name@);
        }
        (at, false)
    }

    /// Adds a collection. `open` opens it; a name that is not valid or is taken,
    /// or a failure to open, changes nothing. Only a valid name that is not taken is
    /// opened.
    pub fn create_collection<O: FnOnce(&str, CollectionConfig) -> Result<T>>(
        &mut self,
        name: &str,
        config: CollectionConfig,
        open: O,
    ) -> (result: Result<()>)
        requires
            old(self).wf(),
            valid_name(name@) && !old(self)@.collections.contains_key(name@) ==> open.requires(
                (name, config),
            ),
        ensures
            final(self).wf(),
            if !valid_name(name@) {
                final(self)@ == old(self)@ && result is Err && result->Err_0@ == bad_name()
            } else if old(self)@.collections.contains_key(name@) {
                final(self)@ == old(self)@ && result is Err && result->Err_0@
                    == ErrorView::AlreadyExists("collection "@ + name@)
            } else {
                exists|opened: Result<T>| #[trigger]
                    open.ensures((name, config), opened) && match opened {
                        Ok(collection) => result is Ok && final(self)@ == (DatabaseView {
                            collections: old(self)@.collections.insert(name@, collection),
                            ..old(self)@
                        }),
                        Err(error) => final(self)@ == old(self)@ && result == Err::<(), Error>(
                            error,
                        ),
                    }
            },
    {
        validate_collection_name(name)?;
        let (at, taken) = self.place(name);
        if taken {
            return Err(Error::AlreadyExists(join("collection ", name)));
        }
        let opened = open(name, config);
        assert(open.ensures((name, config), opened));
        match opened {
            Err(error) => Err(error),
            Ok(collection) => {
                self.put(at, name, collection);
                Ok(())
            },
        }
    }

    fn put(&mut self, at: usize, name: &str, collection: T)
        requires
            old(self).wf(),
            valid_name(name@),
            at <= old(self).collections@.len(),
            forall|j: int|
                0 <= j < at ==> text_less((#[trigger] old(self).collections@[j]).0@, name@),
            forall|j: int|
                at <= j < old(self).collections@.len() ==> text_less(
                    name@,
                    (#[trigger] old(self).collections@[j]).0@,
                ),
        ensures
            final(self).wf(),
            final(self)@ == (DatabaseView {
                collections: old(self)@.collections.insert(name@, collection),
                ..old(self)@
            }),
    {
        let ghost before = self.collections@;
        let entry: (String, T) = (name.to_owned(), collection);
        let ghost value = entry;
        proof {
            lemma_placed(before, at as int, value);
        }
        self.collections.insert(at, entry);
        proof {
            assert(self.collections@ =~= before.insert(at as int, value));
            assert forall|i: int| 0 <= i < self.collections@.len() implies valid_name(
                (#[trigger] self.collections@[i]).0@,
            ) by {
                if i < at {
                    assert(self.collections@[i] == before[i]);
                } else if i > at {
                    assert(self.collections@[i] == before[i - 1]);
                }
            }
        }
    }

    /// The collection of a name.
    pub fn collection(&self, name: &str) -> (result: Result<&T>)
        requires
            self.wf(),
        ensures
            if !valid_name(name@) {
                result is Err && result->Err_0@ == bad_name()
            } else if self@.collections.contains_key(name@) {
                result is Ok && *result->Ok_0 == self@.collections[name@]
            } else {
                result is Err && result->Err_0@ == ErrorView::NotFound("collection "@ + name@)
            },
    {
        validate_collection_name(name)?;
        let (at, known) = self.place(name);
        if !known {
            return Err(Error::NotFound(join("collection ", name)));
        }
        proof {
            lemma_by_name(self.collections@);
            assert(self.collections@[at as int].0@ == name@);
        }
        Ok(&self.collections[at].1)
    }

    /// A summary of every collection, by name. `state` asks a collection; the first by
    /// name that does not tell ends the listing.
    pub fn list_collections<S: Fn(&T) -> Result<CollectionState>>(&self, state: S) -> (result:
        Result<Vec<CollectionSummary>>)
        requires
            self.wf(),
            forall|name: Seq<char>| #[trigger]
                self@.collections.contains_key(name) ==> state.requires(
                    (&self@.collections[name],),
                ),
        ensures
            match result {
                Ok(list) => {
                    &&& forall|i: int, j: int|
                        0 <= i < j < list@.len() ==> text_less(
                            (#[trigger] list@[i]).name@,
                            (#[trigger] list@[j]).name@,
                        )
                    &&& forall|i: int|
                        0 <= i < list@.len() ==> self@.collections.contains_key(
                            (#[trigger] list@[i]).name@,
                        ) && state.ensures(
                            (&self@.collections[list@[i].name@],),
                            Ok(list@[i]@.state),
                        )
                    &&& forall|name: Seq<char>| #[trigger]
                        self@.collections.contains_key(name) ==> exists|i: int|
                            0 <= i < list@.len() && (#[trigger] list@[i]).name@ == name
                },
                Err(error) => exists|name: Seq<char>| #[trigger]
                    self@.collections.contains_key(name) && state.ensures(
                        (&self@.collections[name],),
                        Err(error),
                    ) && told_before(self@.collections, state, name),
            },
    {
        let mut list: Vec<CollectionSummary> = Vec::new();
        let mut i: usize = 0;
        let ghost all = self.collections@;
        proof {
            lemma_by_name(all);
        }
        while i < self.collections.len()
            invariant
                self.wf(),
                all == self.collections@,
                i <= all.len(),
                list@.len() == i,
                forall|name: Seq<char>| #[trigger]
                    self@.collections.contains_key(name) ==> state.requires(
                        (&self@.collections[name],),
                    ),
                forall|j: int|
                    0 <= j < all.len() ==> self@.collections.contains_key((#[trigger] all[j]).0@)
                        && self@.collections[all[j].0@] == all[j].1,
                forall|name: Seq<char>| #[trigger]
                    self@.collections.contains_key(name) ==> exists|j: int|
                        0 <= j < all.len() && (#[trigger] all[j]).0@ == name,
                forall|j: int|
                    0 <= j < i ==> (#[trigger] list@[j]).name@ == all[j].0@ && state.ensures(
                        (&all[j].1,),
                        Ok(list@[j]@.state),
                    ),
            decreases self.collections.len() - i,
        {
            let answer = state(&self.collections[i].1);
            assert(state.ensures((&all[i as int].1,), answer));
            match answer {
                Err(error) => {
                    proof {
                        let name = all[i as int].0@;
                        assert(self@.collections.contains_key(name));
                        assert forall|other: Seq<char>| #[trigger]
                            self@.collections.contains_key(other) && text_less(
                                other,
                                name,
                            ) implies exists|told: CollectionState|
                            state.ensures((&self@.collections[other],), Ok(told)) by {
                            let a = choose|a: int|
                                0 <= a < all.len() && (#[trigger] all[a]).0@ == other;
                            if a > i {
                                assert(text_less(all[i as int].0@, all[a].0@));
                                lemma_text_transitive(other, name, other);
                            }
                            lemma_text_irreflexive(other);
                            assert(list@[a].name@ == all[a].0@);
                        }
                    }
                    return Err(error);
                },
                Ok(told) => {
                    list.push(
                        CollectionSummary {
                            name: self.collections[i].0.clone(),
                            config: told.config,
                            points: told.points,
                            latest_sequence: told.latest_sequence,
                            pending_points: told.pending_points,
                        },
                    );
                    assert(list@[i as int]@.state == told);
                },
            }
            i = i + 1;
        }
        proof {
            assert forall|a: int, b: int| 0 <= a < b < list@.len() implies text_less(
                (#[trigger] list@[a]).name@,
                (#[trigger] list@[b]).name@,
            ) by {
                assert(text_less(all[a].0@, all[b].0@));
            }
            assert forall|a: int| 0 <= a < list@.len() implies self@.collections.contains_key(
                (#[trigger] list@[a]).name@,
            ) && state.ensures((&self@.collections[list@[a].name@],), Ok(list@[a]@.state)) by {
                assert(list@[a].name@ == all[a].0@);
                assert(self@.collections.contains_key(all[a].0@));
            }
            assert forall|name: Seq<char>| #[trigger]
                self@.collections.contains_key(name) implies exists|a: int|
                0 <= a < list@.len() && (#[trigger] list@[a]).name@ == name by {
                let a = choose|a: int| 0 <= a < all.len() && (#[trigger] all[a]).0@ == name;
                assert(list@[a].name@ == name);
            }
        }
        Ok(list)
    }

    /// Backs a collection up. `backup` copies it and gives the sequence of the copy.
    pub fn backup_collection<B: FnOnce(&T) -> Result<u64>>(
        &self,
        collection_name: &str,
        backup_name: &str,
        backup: B,
    ) -> (result: Result<u64>)
        requires
            self.wf(),
            valid_name(backup_name@) && valid_name(collection_name@)
                && self@.collections.contains_key(collection_name@) ==> backup.requires(
                (&self@.collections[collection_name@],),
            ),
        ensures
            if !valid_name(backup_name@) || !valid_name(collection_name@) {
                result is Err && result->Err_0@ == bad_name()
            } else if !self@.collections.contains_key(collection_name@) {
                result is Err && result->Err_0@ == ErrorView::NotFound(
                    "collection "@ + collection_name@,
                )
            } else {
                backup.ensures((&self@.collections[collection_name@],), result)
            },
    {
        validate_collection_name(backup_name)?;
        let collection = self.collection(collection_name)?;
        let result = backup(collection);
        result
    }

    /// Adds a collection made of a backup. `backup_exists` says whether there is
    /// one of that name, and `restore` makes the collection.
    pub fn restore_collection<R: FnOnce(&str, &str) -> Result<T>>(
        &mut self,
        backup_name: &str,
        collection_name: &str,
        backup_exists: bool,
        restore: R,
    ) -> (result: Result<()>)
        requires
            old(self).wf(),
            valid_name(backup_name@) && valid_name(collection_name@)
                && !old(self)@.collections.contains_key(collection_name@) && backup_exists
                ==> restore.requires((backup_name, collection_name)),
        ensures
            final(self).wf(),
            if !valid_name(backup_name@) || !valid_name(collection_name@) {
                final(self)@ == old(self)@ && result is Err && result->Err_0@ == bad_name()
            } else if old(self)@.collections.contains_key(collection_name@) {
                final(self)@ == old(self)@ && result is Err && result->Err_0@
                    == ErrorView::AlreadyExists("collection "@ + collection_name@)
            } else if !backup_exists {
                final(self)@ == old(self)@ && result is Err && result->Err_0@
                    == ErrorView::NotFound("backup "@ + backup_name@)
            } else {
                exists|restored: Result<T>| #[trigger]
                    restore.ensures((backup_name, collection_name), restored) && match restored {
                        Ok(collection) => result is Ok && final(self)@ == (DatabaseView {
                            collections: old(self)@.collections.insert(
                                collection_name@,
                                collection,
                            ),
                            ..old(self)@
                        }),
                        Err(error) => final(self)@ == old(self)@ && result == Err::<(), Error>(
                            error,
                        ),
                    }
            },
    {
        validate_collection_name(backup_name)?;
        validate_collection_name(collection_name)?;
        let (at, taken) = self.place(collection_name);
        if taken {
            return Err(Error::AlreadyExists(join("collection ", collection_name)));
        }
        if !backup_exists {
            return Err(Error::NotFound(join("backup ", backup_name)));
        }
        let restored = restore(backup_name, collection_name);
        assert(restore.ensures((backup_name, collection_name), restored));
        match restored {
            Err(error) => Err(error),
            Ok(collection) => {
                self.put(at, collection_name, collection);
                Ok(())
            },
        }
    }
}

/// A name between its neighbours is not in the list.
proof fn lemma_not_there<T>(list: Seq<(String, T)>, at: int, name: Seq<char>)
    requires
        in_name_order(list),
        0 <= at <= list.len(),
        forall|j: int| 0 <= j < at ==> text_less((#[trigger] list[j]).0@, name),
        forall|j: int| at <= j < list.len() ==> text_less(name, (#[trigger] list[j]).0@),
    ensures
        !by_name(list).contains_key(name),
{
    lemma_by_name(list);
    if by_name(list).contains_key(name) {
        let i = choose|i: int| 0 <= i < list.len() && (#[trigger] list[i]).0@ == name;
        lemma_text_irreflexive(name);
    }
}

/// A name that may be used is no path: it holds no separator and no dot, so that it names
/// neither a file elsewhere nor the directory above, and its bytes are as many as its
/// characters.
pub proof fn law_valid_names_are_no_paths(name: Seq<char>)
    requires
        valid_name(name),
    ensures
        name.len() > 0,
        name.len() <= 64,
        !name.contains('/'),
        !name.contains('.'),
        !name.contains((0x5cu32) as char),
        !name.contains((0u32) as char),
        forall|i: int| 0 <= i < name.len() ==> (#[trigger] name[i] as u32) < 0x80,
{
}

/// What is discovered in a directory are its collections, all of them and nothing else, in
/// the order of their names.
pub proof fn law_discovery_finds_the_collections(
    entries: Seq<FoundEntry>,
    names: Seq<String>,
    name: Seq<char>,
)
    requires
        sorted_names(entries, names),
    ensures
        (exists|i: int| 0 <= i < names.len() && (#[trigger] names[i])@ == name) <==> (exists|
            e: int,
        |
            0 <= e < entries.len() && (#[trigger] entries[e]).is_directory
                && entries[e].has_settings && valid_name(entries[e].name@) && entries[e].name@
                == name),
        forall|i: int, j: int|
            0 <= i < j < names.len() ==> (#[trigger] names[i])@ == (#[trigger] names[j])@
                || text_less(names[i]@, names[j]@),
{
    let listed = choose|listed: Seq<String>| #[trigger]
        views(listed) == collection_names(entries) && names.to_multiset() == listed.to_multiset();
    lemma_collection_names(entries, name);
    if exists|i: int| 0 <= i < names.len() && (#[trigger] names[i])@ == name {
        let i = choose|i: int| 0 <= i < names.len() && (#[trigger] names[i])@ == name;
        vstd::seq_lib::to_multiset_contains(names, names[i]);
        vstd::seq_lib::to_multiset_contains(listed, names[i]);
        assert(names.contains(names[i]));
        let x = choose|x: int| 0 <= x < listed.len() && listed[x] == names[i];
        assert(views(listed)[x] == name);
        assert(collection_names(entries).contains(name));
    }
    if collection_names(entries).contains(name) {
        let x = choose|x: int|
            0 <= x < collection_names(entries).len() && collection_names(entries)[x] == name;
        assert(views(listed)[x] == name);
        assert(listed.contains(listed[x]));
        vstd::seq_lib::to_multiset_contains(listed, listed[x]);
        vstd::seq_lib::to_multiset_contains(names, listed[x]);
        let i = choose|i: int| 0 <= i < names.len() && names[i] == listed[x];
        assert(names[i]@ == name);
    }
}

proof fn lemma_collection_names(entries: Seq<FoundEntry>, name: Seq<char>)
    ensures
        collection_names(entries).contains(name) <==> exists|e: int|
            0 <= e < entries.len() && (#[trigger] entries[e]).is_directory
                && entries[e].has_settings && valid_name(entries[e].name@) && entries[e].name@
                == name,
    decreases entries.len(),
{
    if entries.len() > 0 {
        let rest = entries.drop_last();
        let end = entries.len() - 1;
        lemma_collection_names(rest, name);
        let all = collection_names(entries);
        let front = collection_names(rest);
        if all.contains(name) {
            let x = choose|x: int| 0 <= x < all.len() && all[x] == name;
            if x < front.len() {
                assert(front[x] == name);
                assert(front.contains(name));
                let e = choose|e: int|
                    0 <= e < rest.len() && (#[trigger] rest[e]).is_directory
                        && rest[e].has_settings && valid_name(rest[e].name@) && rest[e].name@
                        == name;
                assert(entries[e] == rest[e]);
            } else {
                assert(entries[end].name@ == name);
            }
        }
        if exists|e: int|
            0 <= e < entries.len() && (#[trigger] entries[e]).is_directory
                && entries[e].has_settings && valid_name(entries[e].name@) && entries[e].name@
                == name {
            let e = choose|e: int|
                0 <= e < entries.len() && (#[trigger] entries[e]).is_directory
                    && entries[e].has_settings && valid_name(entries[e].name@) && entries[e].name@
                    == name;
            if e < end {
                assert(rest[e] == entries[e]);
                assert(front.contains(name));
                let x = choose|x: int| 0 <= x < front.len() && front[x] == name;
                assert(all[x] == name);
            } else {
                assert(all[all.len() - 1] == name);
            }
        }
    }
}

} // verus!
