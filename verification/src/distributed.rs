//! A client of replicated shards.
//!
//! The library decides which shard gets which command, at which address a shard
//! is looked for and what the answers come to; the caller sends and waits.
use crate::collection::{views, SearchHit, UpsertPoint, UpsertView};
use crate::error::{Error, ErrorView, Result};
use crate::parse::{
    law_end_marks_are_taken, pieces, split, trim, trim_end, trimmed, without_end,
};
use crate::raft_storage::{CommandView, ResponseView, ShardCommand, ShardResponse};
use crate::sharding::{
    any_empty, batch_of, gather_hits, gathered, has_empty_id, law_batches_are_parts_of_the_request,
    law_every_id_has_a_shard, law_items_go_to_their_shards, partition, shard_of, Routed,
};
use crate::sort::{arranged, sort, Sortable};
use crate::text::{begins_with, decimal, decimal_text, join};
use vstd::prelude::*;
use vstd::string::*;

verus! {

/// The members of a shard, by address.
#[derive(Debug, PartialEq, Eq)]
pub struct ReplicaSet {
    pub addresses: Vec<String>,
}

impl View for ReplicaSet {
    type V = Seq<Seq<char>>;

    open spec fn view(&self) -> Seq<Seq<char>> {
        views(self.addresses@)
    }
}

/// The shards of a collection and the token that their members ask for.
pub struct ClusterView {
    pub shards: Seq<Seq<Seq<char>>>,
    pub token: Seq<char>,
}

/// A collection on replicated shards.
pub struct DistributedCollection {
    token: String,
    shards: Vec<ReplicaSet>,
}

impl View for DistributedCollection {
    type V = ClusterView;

    closed spec fn view(&self) -> ClusterView {
        ClusterView { shards: views(self.shards@), token: self.token@ }
    }
}

/// There is a shard, and every shard has a member.
pub open spec fn populated(shards: Seq<Seq<Seq<char>>>) -> bool {
    &&& shards.len() > 0
    &&& forall|s: int| 0 <= s < shards.len() ==> (#[trigger] shards[s]).len() > 0
}

/// A command for a shard.
pub struct Dispatch {
    pub shard: usize,
    pub command: ShardCommand,
}

/// A command for a shard.
pub struct DispatchView {
    pub shard: int,
    pub command: CommandView,
}

impl View for Dispatch {
    type V = DispatchView;

    open spec fn view(&self) -> DispatchView {
        DispatchView { shard: self.shard as int, command: self.command@ }
    }
}

/// The commands of a request that writes points: one for every shard that has a
/// part of it.
pub open spec fn upsert_dispatches(
    client_id: Seq<char>,
    request_id: u64,
    points: Seq<UpsertView>,
    count: nat,
    upto: int,
) -> Seq<DispatchView>
    decreases upto,
{
    if upto <= 0 {
        seq![]
    } else {
        let front = upsert_dispatches(client_id, request_id, points, count, upto - 1);
        let batch = batch_of::<UpsertPoint>(points, count, upto - 1);
        if batch.len() == 0 {
            front
        } else {
            front.push(
                DispatchView {
                    shard: upto - 1,
                    command: CommandView::Upsert { client_id, request_id, points: batch },
                },
            )
        }
    }
}

/// The commands of a request that deletes points.
pub open spec fn delete_dispatches(
    client_id: Seq<char>,
    request_id: u64,
    ids: Seq<Seq<char>>,
    count: nat,
    upto: int,
) -> Seq<DispatchView>
    decreases upto,
{
    if upto <= 0 {
        seq![]
    } else {
        let front = delete_dispatches(client_id, request_id, ids, count, upto - 1);
        let batch = batch_of::<String>(ids, count, upto - 1);
        if batch.len() == 0 {
            front
        } else {
            front.push(
                DispatchView {
                    shard: upto - 1,
                    command: CommandView::Delete { client_id, request_id, ids: batch },
                },
            )
        }
    }
}

/// Where a member is asked: its address, as a web address without a slash at its
/// end, and the path.
pub open spec fn member_url(address: Seq<char>, path: Seq<char>) -> Seq<char> {
    let base = without_end(address, '/');
    if "http://"@.is_prefix_of(address) || "https://"@.is_prefix_of(address) {
        base + path
    } else {
        "http://"@ + base + path
    }
}

/// Where a member is asked.
pub fn url_of(address: &str, path: &str) -> (url: String)
    ensures
        url@ == member_url(address@, path@),
{
    let base = trim_end(address, '/');
    if begins_with(address, "http://") || begins_with(address, "https://") {
        join(base, path)
    } else {
        let mut url = join("http://", base);
        url.append(path);
        url
    }
}

/// The breadth of a search where none is asked for: four times `k`, at least 96.
pub open spec fn cluster_breadth(k: usize) -> usize {
    crate::persistence::default_breadth(k)
}

/// What a search is refused for before any shard is asked.
pub open spec fn search_fault(k: usize, ef_search: usize) -> Option<ErrorView> {
    if k == 0 {
        Some(ErrorView::InvalidQuery("k must be greater than zero"@))
    } else if ef_search < k {
        Some(ErrorView::InvalidQuery("ef_search must be at least k"@))
    } else {
        None
    }
}

impl DistributedCollection {
    /// There is a shard, every shard has a member, and there is a token.
    pub closed spec fn wf(&self) -> bool {
        populated(self@.shards) && self@.token.len() > 0
    }

    /// A collection on shards.
    pub fn new(shards: Vec<ReplicaSet>, token: String) -> (result: Result<DistributedCollection>)
        ensures
            match result {
                Ok(collection) => {
                    &&& populated(views(shards@)) && token@.len() > 0
                    &&& collection.wf()
                    &&& collection@ == (ClusterView { shards: views(shards@), token: token@ })
                },
                Err(error) => if !populated(views(shards@)) {
                    error@ == ErrorView::InvalidConfig(
                        "distributed collections require at least one replica per shard"@,
                    )
                } else {
                    token@.len() == 0 && error@ == ErrorView::InvalidConfig(
                        "Raft peer token must not be empty"@,
                    )
                },
            },
    {
        if shards.len() == 0 {
            return Err(
                Error::InvalidConfig(
                    "distributed collections require at least one replica per shard",
                ),
            );
        }
        let mut i: usize = 0;
        while i < shards.len()
            invariant
                i <= shards@.len(),
                forall|s: int| 0 <= s < i ==> (#[trigger] views(shards@)[s]).len() > 0,
            decreases shards.len() - i,
        {
            if shards[i].addresses.len() == 0 {
                assert(views(shards@)[i as int].len() == 0);
                return Err(
                    Error::InvalidConfig(
                        "distributed collections require at least one replica per shard",
                    ),
                );
            }
            assert(views(shards@)[i as int].len() > 0);
            i = i + 1;
        }
        if token.as_str().is_empty() {
            return Err(Error::InvalidConfig("Raft peer token must not be empty"));
        }
        Ok(DistributedCollection { token, shards })
    }

    /// The number of shards.
    pub fn shard_count(&self) -> (count: usize)
        ensures
            count == self@.shards.len(),
    {
        self.shards.len()
    }

    /// The token that the members ask for.
    pub fn token(&self) -> (token: &str)
        ensures
            token@ == self@.token,
    {
        self.token.as_str()
    }

    /// The commands that write points.
    pub fn upsert(&self, client_id: &str, request_id: u64, points: Vec<UpsertPoint>) -> (result:
        Result<Vec<Dispatch>>)
        requires
            self.wf(),
        ensures
            if points@.len() == 0 {
                result is Err && result->Err_0@ == ErrorView::InvalidQuery(
                    "upsert batch must not be empty"@,
                )
            } else {
                result is Ok && views(result->Ok_0@) == upsert_dispatches(
                    client_id@,
                    request_id,
                    views(points@),
                    self@.shards.len(),
                    self@.shards.len() as int,
                )
            },
    {
        if points.len() == 0 {
            return Err(Error::InvalidQuery("upsert batch must not be empty"));
        }
        let ghost all = views(points@);
        let count: usize = self.shards.len();
        let batches = partition(points, count);
        let mut list: Vec<Dispatch> = Vec::new();
        let mut shard: usize = 0;
        assert(views(list@) =~= Seq::empty());
        while shard < count
            invariant
                shard <= count,
                batches@.len() == count,
                forall|s: int|
                    0 <= s < count ==> views((#[trigger] batches@[s])@) == batch_of::<UpsertPoint>(
                        all,
                        count as nat,
                        s,
                    ),
                views(list@) == upsert_dispatches(
                    client_id@,
                    request_id,
                    all,
                    count as nat,
                    shard as int,
                ),
            decreases count - shard,
        {
            let ghost before = views(list@);
            assert(views(batches@[shard as int]@).len() == batches@[shard as int]@.len());
            if batches[shard].len() > 0 {
                let copies = batches[shard].clone();
                assert(views(copies@) =~= views(batches@[shard as int]@));
                let item = Dispatch {
                    shard,
                    command: ShardCommand::Upsert {
                        client_id: client_id.to_owned(),
                        request_id,
                        points: copies,
                    },
                };
                let ghost value = item@;
                list.push(item);
                assert(views(list@) =~= before.push(value));
            }
            shard = shard + 1;
        }
        Ok(list)
    }

    /// The commands that delete points.
    pub fn delete(&self, client_id: &str, request_id: u64, ids: Vec<String>) -> (result: Result<
        Vec<Dispatch>,
    >)
        requires
            self.wf(),
        ensures
            if ids@.len() == 0 || has_empty_id(views(ids@)) {
                result is Err && result->Err_0@ == ErrorView::InvalidQuery(
                    "delete IDs must be non-empty"@,
                )
            } else {
                result is Ok && views(result->Ok_0@) == delete_dispatches(
                    client_id@,
                    request_id,
                    views(ids@),
                    self@.shards.len(),
                    self@.shards.len() as int,
                )
            },
    {
        if ids.len() == 0 || any_empty(&ids) {
            return Err(Error::InvalidQuery("delete IDs must be non-empty"));
        }
        let ghost all = views(ids@);
        let count: usize = self.shards.len();
        let batches = partition(ids, count);
        let mut list: Vec<Dispatch> = Vec::new();
        let mut shard: usize = 0;
        assert(views(list@) =~= Seq::empty());
        while shard < count
            invariant
                shard <= count,
                batches@.len() == count,
                forall|s: int|
                    0 <= s < count ==> views((#[trigger] batches@[s])@) == batch_of::<String>(
                        all,
                        count as nat,
                        s,
                    ),
                views(list@) == delete_dispatches(
                    client_id@,
                    request_id,
                    all,
                    count as nat,
                    shard as int,
                ),
            decreases count - shard,
        {
            let ghost before = views(list@);
            assert(views(batches@[shard as int]@).len() == batches@[shard as int]@.len());
            if batches[shard].len() > 0 {
                let copies = crate::raft_storage::copy_ids(&batches[shard]);
                let item = Dispatch {
                    shard,
                    command: ShardCommand::Delete {
                        client_id: client_id.to_owned(),
                        request_id,
                        ids: copies,
                    },
                };
                let ghost value = item@;
                list.push(item);
                assert(views(list@) =~= before.push(value));
            }
            shard = shard + 1;
        }
        Ok(list)
    }

    /// What a search is refused for before any shard is asked.
    pub fn check_search(&self, k: usize, ef_search: usize) -> (result: Result<()>)
        ensures
            match search_fault(k, ef_search) {
                Some(error) => result is Err && result->Err_0@ == error,
                None => result is Ok,
            },
    {
        if k == 0 {
            return Err(Error::InvalidQuery("k must be greater than zero"));
        }
        if ef_search < k {
            return Err(Error::InvalidQuery("ef_search must be at least k"));
        }
        Ok(())
    }

    /// The `k` best points of all shards. `ask` asks every shard for its own and
    /// gives the answers as they came in.
    pub fn search_with_ef<S: FnOnce(usize) -> Vec<Result<Vec<SearchHit>>>>(
        &self,
        k: usize,
        ef_search: usize,
        ask: S,
    ) -> (result: Result<Vec<SearchHit>>)
        requires
            search_fault(k, ef_search) is None ==> ask.requires((self@.shards.len() as usize,)),
        ensures
            match search_fault(k, ef_search) {
                Some(error) => result is Err && result->Err_0@ == error,
                None => exists|answers: Vec<Result<Vec<SearchHit>>>| #[trigger]
                    ask.ensures((self@.shards.len() as usize,), answers) && gathered(
                        answers@,
                        k,
                        result,
                    ),
            },
    {
        self.check_search(k, ef_search)?;
        let answers = ask(self.shards.len());
        assert(ask.ensures((self@.shards.len() as usize,), answers));
        gather_hits(answers, k)
    }

    /// The breadth of a search where none is asked for.
    pub fn default_ef(k: usize) -> (breadth: usize)
        ensures
            breadth == cluster_breadth(k),
    {
        let four: usize = if k > usize::MAX / 4 {
            usize::MAX
        } else {
            k * 4
        };
        if four < 96 {
            96
        } else {
            four
        }
    }

    /// Where the next member of a shard is asked, once `tried` members have not
    /// answered; none where all have been tried.
    pub fn next_url(&self, shard: usize, tried: usize, path: &str) -> (url: Option<String>)
        requires
            shard < self@.shards.len(),
        ensures
            match url {
                Some(u) => tried < self@.shards[shard as int].len() && u@ == member_url(
                    self@.shards[shard as int][tried as int],
                    path@,
                ),
                None => tried >= self@.shards[shard as int].len(),
            },
    {
        let addresses = &self.shards[shard].addresses;
        if tried < addresses.len() {
            Some(url_of(addresses[tried].as_str(), path))
        } else {
            None
        }
    }

    /// The error where no member of a shard has answered. `failures` says why, for
    /// every member.
    pub fn unreachable_shard(shard: usize, failures: &str) -> (error: Error)
        ensures
            error@ == ErrorView::Concurrency(
                "no leader reachable for shard "@ + decimal(shard as nat) + ": "@ + failures@,
            ),
    {
        let mut message = join(
            "no leader reachable for shard ",
            decimal_text(shard as u64).as_str(),
        );
        message.append(": ");
        message.append(failures);
        Error::Concurrency(message)
    }
}

/// A shard's response to a command.
#[derive(Debug, PartialEq, Eq)]
pub struct Reply {
    pub shard: usize,
    pub response: ShardResponse,
}

impl View for Reply {
    type V = (int, ResponseView);

    open spec fn view(&self) -> (int, ResponseView) {
        (self.shard as int, self.response@)
    }
}

impl Sortable for Reply {
    open spec fn at_most(a: (int, ResponseView), b: (int, ResponseView)) -> bool {
        a.0 <= b.0
    }

    proof fn lemma_total(a: (int, ResponseView), b: (int, ResponseView)) {
    }

    proof fn lemma_transitive(
        a: (int, ResponseView),
        b: (int, ResponseView),
        c: (int, ResponseView),
    ) {
    }

    fn is_at_most(&self, other: &Reply) -> (r: bool) {
        self.shard <= other.shard
    }
}

/// Responses in the order of their shards.
pub fn order_replies(replies: Vec<Reply>) -> (ordered: Vec<Reply>)
    ensures
        arranged(ordered@, true),
        ordered@.to_multiset() == replies@.to_multiset(),
{
    sort(replies, true)
}

/// The addresses in a list of members: separated by commas, without white space
/// around them, none of them empty.
pub open spec fn addresses_of(list: Seq<Seq<char>>) -> Seq<Seq<char>>
    decreases list.len(),
{
    if list.len() == 0 {
        seq![]
    } else {
        let front = addresses_of(list.drop_last());
        let address = trimmed(list.last());
        if address.len() == 0 {
            front
        } else {
            front.push(address)
        }
    }
}

/// The shards in a specification: separated by semicolons.
pub open spec fn specified_shards(specification: Seq<char>) -> Seq<Seq<Seq<char>>> {
    let parts = pieces(specification, ';');
    Seq::new(parts.len(), |s: int| addresses_of(pieces(parts[s], ',')))
}

/// The shards that a specification names, if every one has a member.
pub fn replica_sets(specification: &str) -> (result: Result<Vec<ReplicaSet>>)
    ensures
        match result {
            Ok(shards) => populated(specified_shards(specification@)) && views(shards@)
                == specified_shards(specification@),
            Err(error) => !populated(specified_shards(specification@)) && error@
                == ErrorView::InvalidConfiguration(
                "FOCAL_SHARDS must contain semicolon-separated shards and comma-separated replicas"@,
            ),
        },
{
    let parts = split(specification, ';');
    let ghost wanted = specified_shards(specification@);
    let mut shards: Vec<ReplicaSet> = Vec::new();
    let mut s: usize = 0;
    while s < parts.len()
        invariant
            s <= parts@.len(),
            views(parts@) == pieces(specification@, ';'),
            wanted == specified_shards(specification@),
            shards@.len() == s,
            forall|x: int|
                0 <= x < s ==> (#[trigger] shards@[x])@ == wanted[x] && shards@[x]@.len() > 0,
        decreases parts.len() - s,
    {
        assert(views(parts@)[s as int] == parts@[s as int]@);
        let members = split(parts[s].as_str(), ',');
        let ghost list = views(members@);
        let mut addresses: Vec<String> = Vec::new();
        let mut i: usize = 0;
        proof {
            assert(list.subrange(0, 0) =~= Seq::empty());
            assert(views(addresses@) =~= Seq::empty());
        }
        while i < members.len()
            invariant
                i <= members@.len(),
                list == views(members@),
                views(addresses@) == addresses_of(list.subrange(0, i as int)),
            decreases members.len() - i,
        {
            let ghost before = views(addresses@);
            assert(list.subrange(0, i + 1).drop_last() =~= list.subrange(0, i as int));
            assert(list[i as int] == members@[i as int]@);
            let address = trim(members[i].as_str());
            if !address.is_empty() {
                addresses.push(address.to_owned());
                assert(views(addresses@) =~= before.push(address@));
            }
            i = i + 1;
        }
        proof {
            assert(list.subrange(0, i as int) =~= list);
            assert(wanted[s as int] == views(addresses@));
        }
        if addresses.len() == 0 {
            assert(wanted[s as int].len() == 0);
            return Err(
                Error::InvalidConfiguration(
                    "FOCAL_SHARDS must contain semicolon-separated shards and comma-separated replicas".to_owned(),
                ),
            );
        }
        let ghost content = views(addresses@);
        shards.push(ReplicaSet { addresses });
        assert(shards@[s as int]@ == content);
        s = s + 1;
    }
    proof {
        assert(views(shards@) =~= wanted);
        assert forall|x: int| 0 <= x < wanted.len() implies (#[trigger] wanted[x]).len() > 0 by {
            assert(shards@[x]@ == wanted[x]);
        }
    }
    Ok(shards)
}

/// The part of a deletion that a command carries.
pub open spec fn deletion_carried(command: CommandView) -> Seq<Seq<char>> {
    match command {
        CommandView::Delete { ids, .. } => ids,
        CommandView::Upsert { .. } => seq![],
    }
}

/// The part of a write that a command carries.
pub open spec fn points_carried(command: CommandView) -> Seq<UpsertView> {
    match command {
        CommandView::Upsert { points, .. } => points,
        CommandView::Delete { .. } => seq![],
    }
}

/// A shard with something to delete has a command more than the shards before it.
proof fn lemma_delete_grows(
    client_id: Seq<char>,
    request_id: u64,
    ids: Seq<Seq<char>>,
    count: nat,
    upto: int,
)
    requires
        0 < upto,
        batch_of::<String>(ids, count, upto - 1).len() > 0,
    ensures
        delete_dispatches(client_id, request_id, ids, count, upto).len() == delete_dispatches(
            client_id,
            request_id,
            ids,
            count,
            upto - 1,
        ).len() + 1,
{
}

proof fn lemma_delete_dispatches(
    client_id: Seq<char>,
    request_id: u64,
    ids: Seq<Seq<char>>,
    count: nat,
    upto: int,
)
    requires
        0 <= upto,
    ensures
        ({
            let list = delete_dispatches(client_id, request_id, ids, count, upto);
            &&& forall|x: int|
                0 <= x < list.len() ==> 0 <= (#[trigger] list[x]).shard < upto && list[x].command
                    == (CommandView::Delete {
                    client_id,
                    request_id,
                    ids: batch_of::<String>(ids, count, list[x].shard),
                }) && batch_of::<String>(ids, count, list[x].shard).len() > 0
            &&& forall|x: int, y: int|
                0 <= x < y < list.len() ==> (#[trigger] list[x]).shard < (#[trigger] list[y]).shard
            &&& forall|s: int|
                0 <= s < upto && (#[trigger] batch_of::<String>(ids, count, s)).len() > 0
                    ==> exists|x: int| 0 <= x < list.len() && (#[trigger] list[x]).shard == s
        }),
    decreases upto,
{
    if upto > 0 {
        lemma_delete_dispatches(client_id, request_id, ids, count, upto - 1);
        let front = delete_dispatches(client_id, request_id, ids, count, upto - 1);
        let list = delete_dispatches(client_id, request_id, ids, count, upto);
        if batch_of::<String>(ids, count, upto - 1).len() > 0 {
            lemma_delete_grows(client_id, request_id, ids, count, upto);
        }
        assert forall|s: int|
            0 <= s < upto && (#[trigger] batch_of::<String>(
                ids,
                count,
                s,
            )).len() > 0 implies exists|x: int|
            0 <= x < list.len() && (#[trigger] list[x]).shard == s by {
            if s < upto - 1 {
                let x = choose|x: int| 0 <= x < front.len() && (#[trigger] front[x]).shard == s;
                assert(list[x].shard == s);
            } else {
                assert(list[list.len() - 1].shard == s);
            }
        }
    }
}

/// A shard with something to write has a command more than the shards before it.
proof fn lemma_upsert_grows(
    client_id: Seq<char>,
    request_id: u64,
    points: Seq<UpsertView>,
    count: nat,
    upto: int,
)
    requires
        0 < upto,
        batch_of::<UpsertPoint>(points, count, upto - 1).len() > 0,
    ensures
        upsert_dispatches(client_id, request_id, points, count, upto).len() == upsert_dispatches(
            client_id,
            request_id,
            points,
            count,
            upto - 1,
        ).len() + 1,
{
}

proof fn lemma_upsert_dispatches(
    client_id: Seq<char>,
    request_id: u64,
    points: Seq<UpsertView>,
    count: nat,
    upto: int,
)
    requires
        0 <= upto,
    ensures
        ({
            let list = upsert_dispatches(client_id, request_id, points, count, upto);
            &&& forall|x: int|
                0 <= x < list.len() ==> 0 <= (#[trigger] list[x]).shard < upto && list[x].command
                    == (CommandView::Upsert {
                    client_id,
                    request_id,
                    points: batch_of::<UpsertPoint>(points, count, list[x].shard),
                }) && batch_of::<UpsertPoint>(points, count, list[x].shard).len() > 0
            &&& forall|x: int, y: int|
                0 <= x < y < list.len() ==> (#[trigger] list[x]).shard < (#[trigger] list[y]).shard
            &&& forall|s: int|
                0 <= s < upto && (#[trigger] batch_of::<UpsertPoint>(points, count, s)).len() > 0
                    ==> exists|x: int| 0 <= x < list.len() && (#[trigger] list[x]).shard == s
        }),
    decreases upto,
{
    if upto > 0 {
        lemma_upsert_dispatches(client_id, request_id, points, count, upto - 1);
        let front = upsert_dispatches(client_id, request_id, points, count, upto - 1);
        let list = upsert_dispatches(client_id, request_id, points, count, upto);
        if batch_of::<UpsertPoint>(points, count, upto - 1).len() > 0 {
            lemma_upsert_grows(client_id, request_id, points, count, upto);
        }
        assert forall|s: int|
            0 <= s < upto && (#[trigger] batch_of::<UpsertPoint>(
                points,
                count,
                s,
            )).len() > 0 implies exists|x: int|
            0 <= x < list.len() && (#[trigger] list[x]).shard == s by {
            if s < upto - 1 {
                let x = choose|x: int| 0 <= x < front.len() && (#[trigger] front[x]).shard == s;
                assert(list[x].shard == s);
            } else {
                assert(list[list.len() - 1].shard == s);
            }
        }
    }
}

/// A deletion reaches every shard that it concerns: each ID stands in a command for its
/// own shard, every command carries exactly the IDs of its shard, in the order of the
/// request, and no shard gets two.
pub proof fn law_deletions_reach_their_shards(
    client_id: Seq<char>,
    request_id: u64,
    ids: Seq<Seq<char>>,
    count: nat,
)
    requires
        count > 0,
    ensures
        ({
            let list = delete_dispatches(client_id, request_id, ids, count, count as int);
            &&& forall|i: int|
                0 <= i < ids.len() ==> exists|x: int|
                    0 <= x < list.len() && (#[trigger] list[x]).shard == shard_of(
                        (#[trigger] ids[i]),
                        count,
                    ) && deletion_carried(list[x].command).contains(ids[i])
            &&& forall|x: int|
                0 <= x < list.len() ==> {
                    &&& 0 <= (#[trigger] list[x]).shard < count
                    &&& list[x].command is Delete
                    &&& list[x].command.identity() == (client_id, request_id)
                    &&& deletion_carried(list[x].command).len() > 0
                    &&& deletion_carried(list[x].command) == ids.filter(
                        |item: Seq<char>| shard_of(item, count) == list[x].shard,
                    )
                }
            &&& forall|x: int, y: int|
                0 <= x < y < list.len() ==> (#[trigger] list[x]).shard < (#[trigger] list[y]).shard
        }),
{
    let list = delete_dispatches(client_id, request_id, ids, count, count as int);
    lemma_delete_dispatches(client_id, request_id, ids, count, count as int);
    assert forall|x: int| 0 <= x < list.len() implies deletion_carried(
        (#[trigger] list[x]).command,
    ) == ids.filter(|item: Seq<char>| shard_of(item, count) == list[x].shard) by {
        let shard = list[x].shard;
        law_batches_are_parts_of_the_request::<String>(ids, count, shard);
        assert((|item: Seq<char>| shard_of(String::key_of(item), count) == shard)
            =~= (|item: Seq<char>| shard_of(item, count) == shard));
    }
    assert forall|i: int| 0 <= i < ids.len() implies exists|x: int|
        0 <= x < list.len() && (#[trigger] list[x]).shard == shard_of(
            (#[trigger] ids[i]),
            count,
        ) && deletion_carried(list[x].command).contains(ids[i]) by {
        let shard = shard_of(ids[i], count);
        law_every_id_has_a_shard(ids[i], count);
        law_items_go_to_their_shards::<String>(ids, count, i, shard);
        assert(batch_of::<String>(ids, count, shard).len() > 0);
        let x = choose|x: int| 0 <= x < list.len() && (#[trigger] list[x]).shard == shard;
        assert(deletion_carried(list[x].command).contains(ids[i]));
    }
}

/// A write reaches every shard that it concerns: each point stands in a command for the
/// shard of its ID, every command carries exactly the points of its shard, in the order
/// of the request, and no shard gets two.
pub proof fn law_writes_reach_their_shards(
    client_id: Seq<char>,
    request_id: u64,
    points: Seq<UpsertView>,
    count: nat,
)
    requires
        count > 0,
    ensures
        ({
            let list = upsert_dispatches(client_id, request_id, points, count, count as int);
            &&& forall|i: int|
                0 <= i < points.len() ==> exists|x: int|
                    0 <= x < list.len() && (#[trigger] list[x]).shard == shard_of(
                        (#[trigger] points[i]).id,
                        count,
                    ) && points_carried(list[x].command).contains(points[i])
            &&& forall|x: int|
                0 <= x < list.len() ==> {
                    &&& 0 <= (#[trigger] list[x]).shard < count
                    &&& list[x].command is Upsert
                    &&& list[x].command.identity() == (client_id, request_id)
                    &&& points_carried(list[x].command).len() > 0
                    &&& points_carried(list[x].command) == points.filter(
                        |item: UpsertView| shard_of(item.id, count) == list[x].shard,
                    )
                }
            &&& forall|x: int, y: int|
                0 <= x < y < list.len() ==> (#[trigger] list[x]).shard < (#[trigger] list[y]).shard
        }),
{
    let list = upsert_dispatches(client_id, request_id, points, count, count as int);
    lemma_upsert_dispatches(client_id, request_id, points, count, count as int);
    assert forall|x: int| 0 <= x < list.len() implies points_carried(
        (#[trigger] list[x]).command,
    ) == points.filter(|item: UpsertView| shard_of(item.id, count) == list[x].shard) by {
        let shard = list[x].shard;
        law_batches_are_parts_of_the_request::<UpsertPoint>(points, count, shard);
        assert((|item: UpsertView| shard_of(UpsertPoint::key_of(item), count) == shard)
            =~= (|item: UpsertView| shard_of(item.id, count) == shard));
    }
    assert forall|i: int| 0 <= i < points.len() implies exists|x: int|
        0 <= x < list.len() && (#[trigger] list[x]).shard == shard_of(
            (#[trigger] points[i]).id,
            count,
        ) && points_carried(list[x].command).contains(points[i]) by {
        let shard = shard_of(points[i].id, count);
        law_every_id_has_a_shard(points[i].id, count);
        law_items_go_to_their_shards::<UpsertPoint>(points, count, i, shard);
        assert(batch_of::<UpsertPoint>(points, count, shard).len() > 0);
        let x = choose|x: int| 0 <= x < list.len() && (#[trigger] list[x]).shard == shard;
        assert(points_carried(list[x].command).contains(points[i]));
    }
}

/// A part of a specification names its members in their order: the pieces between the
/// commas without white space around them, but for those of which nothing is left.
pub proof fn law_members_are_the_pieces(list: Seq<Seq<char>>)
    ensures
        addresses_of(list) == list.map_values(|piece: Seq<char>| trimmed(piece)).filter(
            |address: Seq<char>| address.len() > 0,
        ),
    decreases list.len(),
{
    let trim_it = |piece: Seq<char>| trimmed(piece);
    let some = |address: Seq<char>| address.len() > 0;
    reveal(Seq::filter);
    if list.len() > 0 {
        law_members_are_the_pieces(list.drop_last());
        assert(list.map_values(trim_it).drop_last() =~= list.drop_last().map_values(trim_it));
    } else {
        assert(list.map_values(trim_it) =~= Seq::empty());
    }
}

/// A member is asked at its address: what is asked for stands at the end, behind the
/// address without the slashes at its own end.
pub proof fn law_members_are_asked_at_their_addresses(address: Seq<char>, path: Seq<char>)
    requires
        without_end(address, '/').len() > 0,
    ensures
        ({
            let url = member_url(address, path);
            let front = url.subrange(0, url.len() - path.len());
            &&& url == front + path
            &&& front.last() != '/'
            &&& without_end(address, '/') == front || "http://"@ + without_end(address, '/') == front
        }),
{
    law_end_marks_are_taken(address, '/');
    let url = member_url(address, path);
    let base = without_end(address, '/');
    let front = url.subrange(0, url.len() - path.len());
    if "http://"@.is_prefix_of(address) || "https://"@.is_prefix_of(address) {
        assert(front =~= base);
    } else {
        assert(front =~= "http://"@ + base);
    }
    assert(url =~= front + path);
}

} // verus!
