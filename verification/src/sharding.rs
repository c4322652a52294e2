//! Collections that are spread over shards by the hash of the point IDs.
//!
//! The library decides which shard a point belongs to, what each shard is asked
//! and what the answers come to; the caller asks the shards.
use crate::bytes::lemma_le_round_trip;
use crate::collection::{
    found, pool, prepared_batch, ranks, views, Collection, CollectionConfig, PointView, SearchHit,
    UpsertPoint, UpsertView,
};
use crate::error::{Error, ErrorView, Result};
use crate::filter::Filter;
use crate::hits::{distinct_ids, law_top_keeps_the_best, rank_set, top_hits, top_of};
use crate::hnsw::model::fnv1a;
use crate::metric::{lawful, Kernel, Metric};
use crate::persistence::wal::{delete_frame, encoded_delete, framed};
use crate::persistence::{
    delete_commit, delete_fault, lemma_logged_at_any_sequence, logged_batch, stage_batch,
    sum_up_to_max, upsert_commit, PersistedView,
};
use crate::ranking::{best_of, law_merged_parts_are_the_whole, lemma_descending_distinct, Ranked};
use crate::parse::{law_numerals_are_read_back, law_padded_numerals_are_read_back};
use crate::text::{padded, padded_text};
use vstd::arithmetic::power::pow;
use vstd::prelude::*;
use vstd::string::*;
use vstd::utf8::*;

verus! {

/// The FNV-1a hash of bytes. It never changes: where points are stored depends on it.
pub fn stable_hash(bytes: &[u8]) -> (hash: u64)
    ensures
        hash == fnv1a(bytes@),
{
    let mut hash: u64 = 0xcbf2_9ce4_8422_2325;
    let mut i: usize = 0;
    assert(bytes@.subrange(0, 0) =~= Seq::empty());
    while i < bytes.len()
        invariant
            i <= bytes@.len(),
            hash == fnv1a(bytes@.subrange(0, i as int)),
        decreases bytes.len() - i,
    {
        hash = (hash ^ (bytes[i] as u64)).wrapping_mul(0x0000_0100_0000_01b3);
        assert(bytes@.subrange(0, i + 1).drop_last() =~= bytes@.subrange(0, i as int));
        i = i + 1;
    }
    assert(bytes@.subrange(0, i as int) =~= bytes@);
    hash
}

/// The shard that an ID belongs to.
pub open spec fn shard_of(id: Seq<char>, count: nat) -> int {
    (fnv1a(encode_utf8(id)) as usize) as int % count as int
}

/// The shard that an ID belongs to.
pub fn shard_index(id: &str, count: usize) -> (shard: usize)
    requires
        count > 0,
    ensures
        shard == shard_of(id@, count as nat),
        shard < count,
{
    stable_hash(id.as_bytes()) as usize % count
}

/// What is sent to the shard of its ID.
pub trait Routed: View + Sized {
    /// The ID.
    spec fn key_of(value: Self::V) -> Seq<char>;

    /// The ID.
    fn key(&self) -> (key: &str)
        ensures
            key@ == Self::key_of(self@),
    ;
}

impl Routed for UpsertPoint {
    open spec fn key_of(value: UpsertView) -> Seq<char> {
        value.id
    }

    fn key(&self) -> (key: &str) {
        self.id.as_str()
    }
}

impl Routed for String {
    open spec fn key_of(value: Seq<char>) -> Seq<char> {
        value
    }

    fn key(&self) -> (key: &str) {
        self.as_str()
    }
}

/// What a shard gets of a request, in the order of the request.
pub open spec fn batch_of<T: Routed>(items: Seq<T::V>, count: nat, shard: int) -> Seq<T::V>
    decreases items.len(),
{
    if items.len() == 0 {
        seq![]
    } else {
        let front = batch_of::<T>(items.drop_last(), count, shard);
        if shard_of(T::key_of(items.last()), count) == shard {
            front.push(items.last())
        } else {
            front
        }
    }
}

/// The batches of a request, one for every shard.
pub open spec fn parted<T: Routed>(items: Seq<T::V>, count: nat, batches: Seq<Vec<T>>) -> bool {
    &&& batches.len() == count
    &&& forall|s: int|
        0 <= s < count ==> views((#[trigger] batches[s])@) == batch_of::<T>(items, count, s)
}

/// Splits a request into one batch for every shard.
pub fn partition<T: Routed>(items: Vec<T>, count: usize) -> (batches: Vec<Vec<T>>)
    requires
        count > 0,
    ensures
        batches@.len() == count,
        parted::<T>(views(items@), count as nat, batches@),
{
    let ghost all = views(items@);
    let ghost given = items@;
    let mut batches: Vec<Vec<T>> = Vec::new();
    let mut s: usize = 0;
    while s < count
        invariant
            s <= count,
            batches@.len() == s,
            forall|x: int| 0 <= x < s ==> (#[trigger] batches@[x])@.len() == 0,
        decreases count - s,
    {
        batches.push(Vec::new());
        s = s + 1;
    }
    let mut rest = items;
    let mut reversed: Vec<T> = Vec::new();
    while rest.len() > 0
        invariant
            rest@.len() + reversed@.len() == given.len(),
            forall|i: int| 0 <= i < rest@.len() ==> #[trigger] rest@[i] == given[i],
            forall|i: int|
                0 <= i < reversed@.len() ==> #[trigger] reversed@[i] == given[given.len() - 1 - i],
        decreases rest.len(),
    {
        match rest.pop() {
            Some(item) => {
                reversed.push(item);
            },
            None => {},
        }
    }
    proof {
        assert(all.subrange(0, 0) =~= Seq::empty());
        assert forall|x: int| 0 <= x < count implies views((#[trigger] batches@[x])@) == batch_of::<
            T,
        >(all.subrange(0, 0), count as nat, x) by {
            assert(views(batches@[x]@) =~= Seq::empty());
        }
    }
    while reversed.len() > 0
        invariant
            count > 0,
            batches@.len() == count,
            all == views(given),
            reversed@.len() <= given.len(),
            forall|i: int|
                0 <= i < reversed@.len() ==> #[trigger] reversed@[i] == given[given.len() - 1 - i],
            forall|x: int|
                0 <= x < count ==> views((#[trigger] batches@[x])@) == batch_of::<T>(
                    all.subrange(0, given.len() - reversed@.len()),
                    count as nat,
                    x,
                ),
        decreases reversed.len(),
    {
        let ghost done = given.len() - reversed@.len();
        let ghost before = batches@;
        match reversed.pop() {
            Some(item) => {
                let ghost value = item@;
                let shard: usize = shard_index(item.key(), count);
                batches[shard].push(item);
                proof {
                    let next = all.subrange(0, done + 1);
                    assert(item == given[done]);
                    assert(next.drop_last() =~= all.subrange(0, done));
                    assert(next.last() == value);
                    assert forall|x: int| 0 <= x < count implies views((#[trigger] batches@[x])@)
                        == batch_of::<T>(next, count as nat, x) by {
                        if x == shard {
                            assert(views(batches@[x]@) =~= views(before[x]@).push(value));
                        } else {
                            assert(batches@[x] == before[x]);
                        }
                    }
                }
            },
            None => {},
        }
    }
    assert(all.subrange(0, given.len() as int) =~= all);
    batches
}

/// A commit of one shard.
#[derive(Debug, Clone, Copy, PartialEq, Eq, Structural)]
pub struct ShardCommit {
    pub shard: usize,
    pub sequence: u64,
    pub affected_points: usize,
}

/// What the answers of the shards come to: a commit for every shard that had
/// something to do, or the first refusal, behind which no shard is asked.
pub open spec fn commits_of(sizes: Seq<nat>, answers: Seq<Result<u64>>) -> core::result::Result<
    Seq<ShardCommit>,
    Error,
>
    decreases sizes.len(),
{
    if sizes.len() == 0 {
        Ok(seq![])
    } else {
        match commits_of(sizes.drop_last(), answers) {
            Err(error) => Err(error),
            Ok(list) => if sizes.last() == 0 {
                Ok(list)
            } else {
                match answers[sizes.len() - 1] {
                    Err(error) => Err(error),
                    Ok(sequence) => Ok(
                        list.push(
                            ShardCommit {
                                shard: (sizes.len() - 1) as usize,
                                sequence,
                                affected_points: sizes.last() as usize,
                            },
                        ),
                    ),
                }
            },
        }
    }
}

/// The sizes of the batches of a request.
pub open spec fn sizes_of<T: Routed>(items: Seq<T::V>, count: nat) -> Seq<nat> {
    Seq::new(count, |s: int| batch_of::<T>(items, count, s).len())
}

/// A shard was handed a batch and gave an answer.
pub open spec fn committed<T: Routed, C: Fn(usize, Vec<T>) -> Result<u64>>(
    commit: C,
    shard: int,
    batch: Seq<T::V>,
    answer: Result<u64>,
) -> bool {
    exists|handed: Vec<T>| #[trigger]
        commit.ensures((shard as usize, handed), answer) && views(handed@) == batch
}

/// Every shard that had something to do was handed its batch, in turn, up to the
/// first refusal, and the answers are these.
pub open spec fn asked<T: Routed, C: Fn(usize, Vec<T>) -> Result<u64>>(
    commit: C,
    items: Seq<T::V>,
    count: nat,
    answers: Seq<Result<u64>>,
) -> bool {
    asked_upto::<T, C>(commit, items, count, answers, count as int)
}

/// The same of the shards before one.
pub open spec fn asked_upto<T: Routed, C: Fn(usize, Vec<T>) -> Result<u64>>(
    commit: C,
    items: Seq<T::V>,
    count: nat,
    answers: Seq<Result<u64>>,
    upto: int,
) -> bool {
    let sizes = sizes_of::<T>(items, count);
    forall|s: int|
        #![trigger answers[s]]
        0 <= s < upto && sizes[s] > 0 && commits_of(sizes.subrange(0, s), answers) is Ok
            ==> committed::<T, C>(commit, s, batch_of::<T>(items, count, s), answers[s])
}

/// A result as the shards' answers give it.
pub open spec fn answered<T: Routed, C: Fn(usize, Vec<T>) -> Result<u64>>(
    commit: C,
    items: Seq<T::V>,
    count: nat,
    result: Result<Vec<ShardCommit>>,
) -> bool {
    exists|answers: Seq<Result<u64>>| #[trigger]
        asked::<T, C>(commit, items, count, answers) && match commits_of(
            sizes_of::<T>(items, count),
            answers,
        ) {
            Ok(list) => result is Ok && result->Ok_0@ == list,
            Err(error) => result == Err::<Vec<ShardCommit>, Error>(error),
        }
}

proof fn lemma_commits_prefix(sizes: Seq<nat>, a: Seq<Result<u64>>, b: Seq<Result<u64>>)
    requires
        forall|i: int| 0 <= i < sizes.len() ==> #[trigger] a[i] == b[i],
    ensures
        commits_of(sizes, a) == commits_of(sizes, b),
    decreases sizes.len(),
{
    if sizes.len() > 0 {
        lemma_commits_prefix(sizes.drop_last(), a, b);
        assert(a[sizes.len() - 1] == b[sizes.len() - 1]);
    }
}

proof fn lemma_commits_refused(sizes: Seq<nat>, answers: Seq<Result<u64>>, count: int)
    requires
        0 <= count <= sizes.len(),
        commits_of(sizes.subrange(0, count), answers) is Err,
    ensures
        commits_of(sizes, answers) == commits_of(sizes.subrange(0, count), answers),
    decreases sizes.len() - count,
{
    if count == sizes.len() {
        assert(sizes.subrange(0, count) =~= sizes);
    } else {
        assert(sizes.subrange(0, count + 1).drop_last() =~= sizes.subrange(0, count));
        lemma_commits_refused(sizes, answers, count + 1);
    }
}

/// A shard may be handed a batch: it is its part of the request, there is something to
/// do, and every shard before it that had something to do has done it.
pub open spec fn turn_of<T: Routed, C: Fn(usize, Vec<T>) -> Result<u64>>(
    commit: C,
    items: Seq<T::V>,
    count: nat,
    shard: usize,
    batch: Seq<T>,
) -> bool {
    &&& shard < count
    &&& batch.len() > 0
    &&& views(batch) == batch_of::<T>(items, count, shard as int)
    &&& exists|answers: Seq<Result<u64>>| #[trigger]
        asked_upto::<T, C>(commit, items, count, answers, shard as int) && commits_of(
            sizes_of::<T>(items, count).subrange(0, shard as int),
            answers,
        ) is Ok
}

/// Hands a shard its batch, once, where there is something to do.
pub fn commit_part<T: Routed, C: FnOnce(usize, Vec<T>) -> Result<u64>>(
    shard: usize,
    batch: Vec<T>,
    commit: C,
) -> (result: Result<Option<ShardCommit>>)
    requires
        batch@.len() > 0 ==> commit.requires((shard, batch)),
    ensures
        if batch@.len() == 0 {
            result == Ok::<Option<ShardCommit>, Error>(None)
        } else {
            exists|answer: Result<u64>| #[trigger]
                commit.ensures((shard, batch), answer) && match answer {
                    Ok(sequence) => result == Ok::<Option<ShardCommit>, Error>(
                        Some(
                            ShardCommit {
                                shard,
                                sequence,
                                affected_points: batch@.len() as usize,
                            },
                        ),
                    ),
                    Err(error) => result == Err::<Option<ShardCommit>, Error>(error),
                }
        },
{
    let affected_points: usize = batch.len();
    if affected_points == 0 {
        return Ok(None);
    }
    let answer = commit(shard, batch);
    assert(commit.ensures((shard, batch), answer));
    match answer {
        Ok(sequence) => Ok(Some(ShardCommit { shard, sequence, affected_points })),
        Err(error) => Err(error),
    }
}

/// What a shard answered, by what was made of it.
spec fn answer_behind(outcome: Result<Option<ShardCommit>>) -> Result<u64> {
    match outcome {
        Ok(Some(done)) => Ok(done.sequence),
        Ok(None) => Ok(0),
        Err(error) => Err(error),
    }
}

/// Hands every shard its batch and gathers the commits.
fn commit_batches<T: Routed, C: Fn(usize, Vec<T>) -> Result<u64>>(
    batches: Vec<Vec<T>>,
    Ghost(all): Ghost<Seq<T::V>>,
    count: usize,
    commit: C,
) -> (result: Result<Vec<ShardCommit>>)
    requires
        count > 0,
        parted::<T>(all, count as nat, batches@),
        forall|shard: usize, batch: Vec<T>|
            turn_of::<T, C>(commit, all, count as nat, shard, batch@)
                ==> #[trigger] commit.requires((shard, batch)),
    ensures
        answered::<T, C>(commit, all, count as nat, result),
{
    let ghost sizes = sizes_of::<T>(all, count as nat);
    let mut batches = batches;
    let mut reversed: Vec<Vec<T>> = Vec::new();
    let ghost given = batches@;
    while batches.len() > 0
        invariant
            batches@.len() + reversed@.len() == given.len(),
            forall|i: int| 0 <= i < batches@.len() ==> #[trigger] batches@[i] == given[i],
            forall|i: int|
                0 <= i < reversed@.len() ==> #[trigger] reversed@[i] == given[given.len() - 1 - i],
        decreases batches.len(),
    {
        match batches.pop() {
            Some(batch) => {
                reversed.push(batch);
            },
            None => {},
        }
    }
    let ghost mut answers: Seq<Result<u64>> = Seq::empty();
    let mut commits: Vec<ShardCommit> = Vec::new();
    let mut shard: usize = 0;
    assert(sizes.subrange(0, 0) =~= Seq::empty());
    while shard < count
        invariant
            sizes == sizes_of::<T>(all, count as nat),
            given.len() == count,
            shard <= count,
            reversed@.len() == count - shard,
            answers.len() == shard,
            forall|x: usize, batch: Vec<T>|
                turn_of::<T, C>(commit, all, count as nat, x, batch@)
                    ==> #[trigger] commit.requires((x, batch)),
            forall|i: int|
                0 <= i < reversed@.len() ==> #[trigger] reversed@[i] == given[given.len() - 1 - i],
            forall|s: int|
                0 <= s < count ==> views((#[trigger] given[s])@) == batch_of::<T>(
                    all,
                    count as nat,
                    s,
                ),
            forall|s: int|
                #![trigger answers[s]]
                0 <= s < shard && sizes[s] > 0 && commits_of(
                    sizes.subrange(0, s),
                    answers,
                ) is Ok ==> committed::<T, C>(
                    commit,
                    s,
                    batch_of::<T>(all, count as nat, s),
                    answers[s],
                ),
            commits_of(sizes.subrange(0, shard as int), answers) == Ok::<Seq<ShardCommit>, Error>(
                commits@,
            ),
        decreases count - shard,
    {
        let ghost next = sizes.subrange(0, shard + 1);
        assert(next.drop_last() =~= sizes.subrange(0, shard as int));
        match reversed.pop() {
            None => {},
            Some(batch) => {
                assert(batch == given[shard as int]);
                let ghost content = views(batch@);
                let hand = |x: usize, part: Vec<T>| -> (answer: Result<u64>)
                    requires
                        commit.requires((x, part)),
                    ensures
                        commit.ensures((x, part), answer),
                    { commit(x, part) };
                proof {
                    assert(content.len() == batch@.len());
                    assert(asked_upto::<T, C>(commit, all, count as nat, answers, shard as int));
                    if batch@.len() > 0 {
                        assert(turn_of::<T, C>(commit, all, count as nat, shard, batch@));
                    }
                }
                let outcome = commit_part(shard, batch, hand);
                let ghost answer = answer_behind(outcome);
                let ghost longer = answers.push(answer);
                proof {
                    assert((shard as int) as usize == shard);
                    if content.len() > 0 {
                        assert(commit.ensures(((shard as int) as usize, batch), answer));
                        assert(committed::<T, C>(commit, shard as int, content, answer));
                    }
                    lemma_longer_answers::<T, C>(
                        commit,
                        all,
                        count as nat,
                        answers,
                        answer,
                        shard as int,
                    );
                }
                match outcome {
                    Err(error) => {
                        proof {
                            lemma_commits_refused(sizes, longer, shard + 1);
                            lemma_asked_refused::<T, C>(
                                commit,
                                all,
                                count as nat,
                                longer,
                                shard + 1,
                            );
                        }
                        return Err(error);
                    },
                    Ok(Some(done)) => {
                        commits.push(done);
                    },
                    Ok(None) => {},
                }
                proof {
                    answers = longer;
                }
            },
        }
        shard = shard + 1;
    }
    proof {
        assert(sizes.subrange(0, count as int) =~= sizes);
        assert(asked::<T, C>(commit, all, count as nat, answers));
    }
    Ok(commits)
}

/// One more answer changes nothing of what came before it.
proof fn lemma_longer_answers<T: Routed, C: Fn(usize, Vec<T>) -> Result<u64>>(
    commit: C,
    items: Seq<T::V>,
    count: nat,
    answers: Seq<Result<u64>>,
    answer: Result<u64>,
    shard: int,
)
    requires
        0 <= shard < count,
        answers.len() == shard,
        sizes_of::<T>(items, count)[shard] > 0 ==> committed::<T, C>(
            commit,
            shard,
            batch_of::<T>(items, count, shard),
            answer,
        ),
        forall|s: int|
            #![trigger answers[s]]
            0 <= s < shard && sizes_of::<T>(items, count)[s] > 0 && commits_of(
                sizes_of::<T>(items, count).subrange(0, s),
                answers,
            ) is Ok ==> committed::<T, C>(
                commit,
                s,
                batch_of::<T>(items, count, s),
                answers[s],
            ),
    ensures
        ({
            let longer = answers.push(answer);
            let sizes = sizes_of::<T>(items, count);
            &&& commits_of(sizes.subrange(0, shard), longer) == commits_of(
                sizes.subrange(0, shard),
                answers,
            )
            &&& forall|s: int|
                #![trigger longer[s]]
                0 <= s < shard + 1 && sizes[s] > 0 && commits_of(
                    sizes.subrange(0, s),
                    longer,
                ) is Ok ==> committed::<T, C>(
                    commit,
                    s,
                    batch_of::<T>(items, count, s),
                    longer[s],
                )
        }),
{
    let longer = answers.push(answer);
    let sizes = sizes_of::<T>(items, count);
    lemma_commits_prefix(sizes.subrange(0, shard), longer, answers);
    assert forall|s: int|
        #![trigger longer[s]]
        0 <= s < shard + 1 && sizes[s] > 0 && commits_of(
            sizes.subrange(0, s),
            longer,
        ) is Ok implies committed::<T, C>(
        commit,
        s,
        batch_of::<T>(items, count, s),
        longer[s],
    ) by {
        if s < shard {
            lemma_commits_prefix(sizes.subrange(0, s), longer, answers);
            assert(longer[s] == answers[s]);
        }
    }
}

/// Behind a refusal no shard is asked.
proof fn lemma_asked_refused<T: Routed, C: Fn(usize, Vec<T>) -> Result<u64>>(
    commit: C,
    items: Seq<T::V>,
    count: nat,
    answers: Seq<Result<u64>>,
    done: int,
)
    requires
        0 <= done <= count,
        commits_of(sizes_of::<T>(items, count).subrange(0, done), answers) is Err,
        forall|s: int|
            #![trigger answers[s]]
            0 <= s < done && sizes_of::<T>(items, count)[s] > 0 && commits_of(
                sizes_of::<T>(items, count).subrange(0, s),
                answers,
            ) is Ok ==> committed::<T, C>(
                commit,
                s,
                batch_of::<T>(items, count, s),
                answers[s],
            ),
    ensures
        asked::<T, C>(commit, items, count, answers),
{
    let sizes = sizes_of::<T>(items, count);
    assert forall|s: int|
        #![trigger answers[s]]
        0 <= s < count && sizes[s] > 0 && commits_of(
            sizes.subrange(0, s),
            answers,
        ) is Ok implies committed::<T, C>(
        commit,
        s,
        batch_of::<T>(items, count, s),
        answers[s],
    ) by {
        if s >= done {
            assert(sizes.subrange(0, s).subrange(0, done) =~= sizes.subrange(0, done));
            lemma_commits_refused(sizes.subrange(0, s), answers, done);
        }
    }
}

/// The results of all shards, or the first refusal.
pub open spec fn all_hits(answers: Seq<Result<Vec<SearchHit>>>) -> core::result::Result<
    Seq<SearchHit>,
    Error,
>
    decreases answers.len(),
{
    if answers.len() == 0 {
        Ok(seq![])
    } else {
        match all_hits(answers.drop_last()) {
            Err(error) => Err(error),
            Ok(hits) => match answers.last() {
                Err(error) => Err(error),
                Ok(more) => Ok(hits + more@),
            },
        }
    }
}

/// A result made of the answers of the shards: the `k` best of all of theirs, or
/// the first refusal.
pub open spec fn gathered(
    answers: Seq<Result<Vec<SearchHit>>>,
    k: usize,
    result: Result<Vec<SearchHit>>,
) -> bool {
    match all_hits(answers) {
        Ok(hits) => result is Ok && top_of(hits, k, result->Ok_0@),
        Err(error) => result == Err::<Vec<SearchHit>, Error>(error),
    }
}

proof fn lemma_all_hits_refused(answers: Seq<Result<Vec<SearchHit>>>, count: int)
    requires
        0 <= count <= answers.len(),
        all_hits(answers.subrange(0, count)) is Err,
    ensures
        all_hits(answers) == all_hits(answers.subrange(0, count)),
    decreases answers.len() - count,
{
    if count == answers.len() {
        assert(answers.subrange(0, count) =~= answers);
    } else {
        assert(answers.subrange(0, count + 1).drop_last() =~= answers.subrange(0, count));
        lemma_all_hits_refused(answers, count + 1);
    }
}

/// Puts the answers of the shards together.
pub fn gather_hits(answers: Vec<Result<Vec<SearchHit>>>, k: usize) -> (result: Result<
    Vec<SearchHit>,
>)
    ensures
        gathered(answers@, k, result),
{
    let ghost given = answers@;
    let mut rest = answers;
    let mut reversed: Vec<Result<Vec<SearchHit>>> = Vec::new();
    while rest.len() > 0
        invariant
            rest@.len() + reversed@.len() == given.len(),
            forall|i: int| 0 <= i < rest@.len() ==> #[trigger] rest@[i] == given[i],
            forall|i: int|
                0 <= i < reversed@.len() ==> #[trigger] reversed@[i] == given[given.len() - 1 - i],
        decreases rest.len(),
    {
        match rest.pop() {
            Some(answer) => {
                reversed.push(answer);
            },
            None => {},
        }
    }
    let mut hits: Vec<SearchHit> = Vec::new();
    assert(given.subrange(0, 0) =~= Seq::empty());
    assert(hits@ =~= Seq::empty());
    while reversed.len() > 0
        invariant
            given == answers@,
            reversed@.len() <= given.len(),
            forall|i: int|
                0 <= i < reversed@.len() ==> #[trigger] reversed@[i] == given[given.len() - 1 - i],
            all_hits(given.subrange(0, given.len() - reversed@.len())) == Ok::<
                Seq<SearchHit>,
                Error,
            >(hits@),
        decreases reversed.len(),
    {
        let ghost done = given.len() - reversed@.len();
        let ghost next = given.subrange(0, done + 1);
        assert(next.drop_last() =~= given.subrange(0, done));
        match reversed.pop() {
            None => {},
            Some(answer) => {
                assert(answer == given[done]);
                assert(next.last() == answer);
                match answer {
                    Err(error) => {
                        proof {
                            lemma_all_hits_refused(given, done + 1);
                        }
                        return Err(error);
                    },
                    Ok(more) => {
                        let mut more = more;
                        hits.append(&mut more);
                    },
                }
            },
        }
    }
    assert(given.subrange(0, given.len() as int) =~= given);
    Ok(top_hits(hits, k))
}

/// A collection that is spread over shards.
pub struct ShardedCollection {
    config: CollectionConfig,
    shards: usize,
}

/// The shape of a sharded collection, and its number of shards.
pub struct ShardedView {
    pub config: CollectionConfig,
    pub shards: nat,
}

impl View for ShardedCollection {
    type V = ShardedView;

    closed spec fn view(&self) -> ShardedView {
        ShardedView { config: self.config, shards: self.shards as nat }
    }
}

/// The name of a shard's directory.
pub open spec fn shard_directory(shard: nat) -> Seq<char> {
    "shard-"@ + if shard < 100000 {
        padded(shard, 5)
    } else {
        crate::text::decimal(shard)
    }
}

/// What the first shard to refuse its part of a request would refuse it for, up to a
/// shard.
pub open spec fn upsert_fault<K: Kernel>(
    kernel: K,
    config: CollectionConfig,
    points: Seq<UpsertView>,
    count: nat,
    upto: int,
) -> Option<ErrorView>
    decreases upto,
{
    if upto <= 0 {
        None
    } else {
        match upsert_fault(kernel, config, points, count, upto - 1) {
            Some(error) => Some(error),
            None => {
                let batch = batch_of::<UpsertPoint>(points, count, upto - 1);
                if batch.len() == 0 {
                    None
                } else {
                    match logged_batch(kernel, config, batch, 1) {
                        Err(error) => Some(error),
                        Ok(_) => None,
                    }
                }
            },
        }
    }
}

/// A request of points, as it is checked before any shard is asked: all points are
/// valid, and so is the part of every shard as it goes into the shard's log.
pub open spec fn checked_points<K: Kernel>(
    kernel: K,
    config: CollectionConfig,
    points: Seq<UpsertView>,
    count: nat,
) -> core::result::Result<(), ErrorView> {
    match prepared_batch(kernel, config, points, 1) {
        Err(error) => Err(error),
        Ok(_) => match upsert_fault(kernel, config, points, count, count as int) {
            Some(error) => Err(error),
            None => Ok(()),
        },
    }
}

/// What the first shard to refuse its part of a deletion would refuse it for, up to a
/// shard.
pub open spec fn removal_fault(ids: Seq<Seq<char>>, count: nat, upto: int) -> Option<ErrorView>
    decreases upto,
{
    if upto <= 0 {
        None
    } else {
        match removal_fault(ids, count, upto - 1) {
            Some(error) => Some(error),
            None => match framed(encoded_delete(1, batch_of::<String>(ids, count, upto - 1))) {
                Err(error) => Some(error),
                Ok(_) => None,
            },
        }
    }
}

/// A deletion, as it is checked before any shard is asked.
pub open spec fn checked_ids(ids: Seq<Seq<char>>, count: nat) -> core::result::Result<
    (),
    ErrorView,
> {
    match delete_fault(ids) {
        Some(error) => Err(error),
        None => match removal_fault(ids, count, count as int) {
            Some(error) => Err(error),
            None => Ok(()),
        },
    }
}

proof fn lemma_upsert_fault<K: Kernel>(
    kernel: K,
    config: CollectionConfig,
    points: Seq<UpsertView>,
    count: nat,
    some: int,
    upto: int,
)
    requires
        some <= upto,
        upsert_fault(kernel, config, points, count, some) is Some,
    ensures
        upsert_fault(kernel, config, points, count, upto) == upsert_fault(
            kernel,
            config,
            points,
            count,
            some,
        ),
    decreases upto - some,
{
    if some < upto {
        lemma_upsert_fault(kernel, config, points, count, some, upto - 1);
    }
}

proof fn lemma_removal_fault(ids: Seq<Seq<char>>, count: nat, some: int, upto: int)
    requires
        some <= upto,
        removal_fault(ids, count, some) is Some,
    ensures
        removal_fault(ids, count, upto) == removal_fault(ids, count, some),
    decreases upto - some,
{
    if some < upto {
        lemma_removal_fault(ids, count, some, upto - 1);
    }
}

impl ShardedCollection {
    /// There is a shard, and the collection has a dimension.
    pub closed spec fn wf(&self) -> bool {
        self.shards > 0 && self.config.dimension > 0
    }

    /// A collection over so many shards.
    pub fn open(config: CollectionConfig, shard_count: usize) -> (result: Result<
        ShardedCollection,
    >)
        ensures
            match result {
                Ok(collection) => {
                    &&& shard_count > 0 && config.dimension > 0
                    &&& collection.wf()
                    &&& collection@ == (ShardedView { config, shards: shard_count as nat })
                },
                Err(error) => if shard_count == 0 {
                    error@ == ErrorView::InvalidConfig("shard count must be greater than zero"@)
                } else {
                    config.dimension == 0 && error@ == ErrorView::InvalidConfig(
                        "dimension must be greater than zero"@,
                    )
                },
            },
    {
        if shard_count == 0 {
            return Err(Error::InvalidConfig("shard count must be greater than zero"));
        }
        Collection::new(config)?;
        Ok(ShardedCollection { config, shards: shard_count })
    }

    /// The shape of the collection.
    pub fn config(&self) -> (config: CollectionConfig)
        ensures
            config == self@.config,
    {
        self.config
    }

    /// The number of shards.
    pub fn shard_count(&self) -> (count: usize)
        ensures
            count == self@.shards,
    {
        self.shards
    }

    /// The shard that an ID belongs to.
    pub fn shard_for_id(&self, id: &str) -> (shard: usize)
        requires
            self.wf(),
        ensures
            shard == shard_of(id@, self@.shards),
            shard < self@.shards,
    {
        shard_index(id, self.shards)
    }

    /// The name of a shard's directory.
    pub fn directory_of(shard: usize) -> (name: String)
        ensures
            name@ == shard_directory(shard as nat),
    {
        if shard < 100000 {
            crate::text::join("shard-", padded_text(shard as u64, 5).as_str())
        } else {
            crate::text::join("shard-", crate::text::decimal_text(shard as u64).as_str())
        }
    }

    /// Checks a request of points as a whole and gives every shard its part. Where any
    /// part would be refused there is nothing for any shard to do.
    pub fn plan_upsert<K: Kernel>(&self, kernel: &K, points: Vec<UpsertPoint>) -> (result: Result<
        Vec<Vec<UpsertPoint>>,
    >)
        requires
            self.wf(),
            lawful(*kernel),
        ensures
            match checked_points(*kernel, self@.config, views(points@), self@.shards) {
                Err(error) => result is Err && result->Err_0@ == error,
                Ok(_) => result is Ok && parted::<UpsertPoint>(
                    views(points@),
                    self@.shards,
                    result->Ok_0@,
                ),
            },
    {
        if points.len() == 0 {
            return Err(Error::InvalidQuery("upsert batch must not be empty"));
        }
        let ghost all = views(points@);
        let validator = Collection::new(self.config)?;
        let copies = points.clone();
        assert(views(copies@) =~= views(points@));
        match validator.prepare_upsert(kernel, copies, 1) {
            Err(error) => {
                return Err(error);
            },
            Ok(_) => {},
        }
        let batches = partition(points, self.shards);
        let mut shard: usize = 0;
        while shard < self.shards
            invariant
                shard <= self.shards,
                lawful(*kernel),
                validator@.config == self.config,
                all == views(points@),
                prepared_batch(*kernel, self.config, all, 1) is Ok,
                parted::<UpsertPoint>(all, self.shards as nat, batches@),
                upsert_fault(*kernel, self.config, all, self.shards as nat, shard as int) is None,
            decreases self.shards - shard,
        {
            assert(views(batches@[shard as int]@).len() == batches@[shard as int]@.len());
            if batches[shard].len() > 0 {
                let part = batches[shard].clone();
                assert(views(part@) =~= views(batches@[shard as int]@));
                match stage_batch(kernel, &validator, part, 1) {
                    Err(error) => {
                        proof {
                            lemma_upsert_fault(
                                *kernel,
                                self.config,
                                all,
                                self.shards as nat,
                                shard + 1,
                                self.shards as int,
                            );
                        }
                        return Err(error);
                    },
                    Ok(_) => {},
                }
            }
            shard = shard + 1;
        }
        Ok(batches)
    }

    /// Writes points, one atomic batch for every involved shard. The whole request
    /// is checked before any shard is asked; `commit` hands a shard its batch. A
    /// request that is refused reaches no shard. A shard that refuses leaves the
    /// shards before it as they are.
    pub fn upsert<K: Kernel, C: Fn(usize, Vec<UpsertPoint>) -> Result<u64>>(
        &self,
        kernel: &K,
        points: Vec<UpsertPoint>,
        commit: C,
    ) -> (result: Result<Vec<ShardCommit>>)
        requires
            self.wf(),
            lawful(*kernel),
            checked_points(*kernel, self@.config, views(points@), self@.shards) is Ok ==> forall|
                shard: usize,
                batch: Vec<UpsertPoint>,
            |
                turn_of::<UpsertPoint, C>(commit, views(points@), self@.shards, shard, batch@)
                    ==> #[trigger] commit.requires((shard, batch)),
        ensures
            match checked_points(*kernel, self@.config, views(points@), self@.shards) {
                Err(error) => result is Err && result->Err_0@ == error,
                Ok(_) => answered::<UpsertPoint, C>(
                    commit,
                    views(points@),
                    self@.shards,
                    result,
                ),
            },
    {
        let ghost all = views(points@);
        let batches = self.plan_upsert(kernel, points)?;
        commit_batches(batches, Ghost(all), self.shards, commit)
    }

    /// Checks a deletion as a whole and gives every shard its part. Where any part
    /// would be refused there is nothing for any shard to do.
    pub fn plan_delete(&self, ids: Vec<String>) -> (result: Result<Vec<Vec<String>>>)
        requires
            self.wf(),
        ensures
            match checked_ids(views(ids@), self@.shards) {
                Err(error) => result is Err && result->Err_0@ == error,
                Ok(_) => result is Ok && parted::<String>(
                    views(ids@),
                    self@.shards,
                    result->Ok_0@,
                ),
            },
    {
        if ids.len() == 0 {
            return Err(Error::InvalidQuery("delete batch must not be empty"));
        }
        if any_empty(&ids) {
            return Err(Error::InvalidQuery("point ID must not be empty"));
        }
        let ghost all = views(ids@);
        let batches = partition(ids, self.shards);
        let mut shard: usize = 0;
        while shard < self.shards
            invariant
                shard <= self.shards,
                all == views(ids@),
                delete_fault(all) is None,
                parted::<String>(all, self.shards as nat, batches@),
                removal_fault(all, self.shards as nat, shard as int) is None,
            decreases self.shards - shard,
        {
            match delete_frame(1, &batches[shard]) {
                Err(error) => {
                    proof {
                        lemma_removal_fault(
                            all,
                            self.shards as nat,
                            shard + 1,
                            self.shards as int,
                        );
                    }
                    return Err(error);
                },
                Ok(_) => {},
            }
            shard = shard + 1;
        }
        Ok(batches)
    }

    /// Deletes points, one atomic batch for every involved shard. The whole request
    /// is checked before any shard is asked, and one that is refused reaches none.
    pub fn delete<C: Fn(usize, Vec<String>) -> Result<u64>>(&self, ids: Vec<String>, commit: C) -> (
    result: Result<Vec<ShardCommit>>)
        requires
            self.wf(),
            checked_ids(views(ids@), self@.shards) is Ok ==> forall|
                shard: usize,
                batch: Vec<String>,
            |
                turn_of::<String, C>(commit, views(ids@), self@.shards, shard, batch@)
                    ==> #[trigger] commit.requires((shard, batch)),
        ensures
            match checked_ids(views(ids@), self@.shards) {
                Err(error) => result is Err && result->Err_0@ == error,
                Ok(_) => answered::<String, C>(commit, views(ids@), self@.shards, result),
            },
    {
        let ghost all = views(ids@);
        let batches = self.plan_delete(ids)?;
        commit_batches(batches, Ghost(all), self.shards, commit)
    }

    /// Searches every shard and keeps the `k` best of their results. `ask` asks all
    /// shards and gives their answers in order.
    pub fn search<S: FnOnce(usize) -> Vec<Result<Vec<SearchHit>>>>(
        &self,
        query: &Vec<u32>,
        k: usize,
        ask: S,
    ) -> (result: Result<Vec<SearchHit>>)
        requires
            self.wf(),
            k > 0 && query@.len() == self@.config.dimension ==> ask.requires(
                (self@.shards as usize,),
            ),
        ensures
            if k == 0 {
                result is Err && result->Err_0@ == ErrorView::InvalidQuery(
                    "k must be greater than zero"@,
                )
            } else if query@.len() != self@.config.dimension {
                result is Err && result->Err_0@ == (ErrorView::InvalidDimension {
                    expected: self@.config.dimension,
                    actual: query@.len() as usize,
                })
            } else {
                exists|answers: Vec<Result<Vec<SearchHit>>>| #[trigger]
                    ask.ensures((self@.shards as usize,), answers) && gathered(
                        answers@,
                        k,
                        result,
                    )
            },
    {
        if k == 0 {
            return Err(Error::InvalidQuery("k must be greater than zero"));
        }
        if query.len() != self.config.dimension {
            return Err(
                Error::InvalidDimension { expected: self.config.dimension, actual: query.len() },
            );
        }
        let answers = ask(self.shards);
        assert(ask.ensures((self@.shards as usize,), answers));
        gather_hits(answers, k)
    }

    /// The number of points in all shards, as far as a size can be. `length` asks a
    /// shard for its number.
    pub fn len<L: Fn(usize) -> Result<usize>>(&self, length: L) -> (result: Result<usize>)
        requires
            self.wf(),
            forall|shard: usize| shard < self@.shards ==> #[trigger] length.requires((shard,)),
        ensures
            exists|answers: Seq<Result<usize>>| #[trigger]
                counted(length, answers, self@.shards) && match total_of(answers) {
                    Ok(total) => result is Ok && result->Ok_0 == total,
                    Err(error) => result == Err::<usize, Error>(error),
                },
    {
        let mut total: usize = 0;
        let mut shard: usize = 0;
        let ghost mut answers: Seq<Result<usize>> = Seq::empty();
        while shard < self.shards
            invariant
                shard <= self.shards,
                answers.len() == shard,
                forall|x: usize| x < self.shards ==> #[trigger] length.requires((x,)),
                forall|s: int|
                    0 <= s < shard ==> length.ensures((s as usize,), #[trigger] answers[s]),
                total_of(answers) == Ok::<usize, Error>(total),
            decreases self.shards - shard,
        {
            let answer = length(shard);
            let ghost longer = answers.push(answer);
            proof {
                assert(longer.drop_last() =~= answers);
                assert(length.ensures(((shard as int) as usize,), answer));
                assert forall|s: int| 0 <= s < shard + 1 implies length.ensures(
                    (s as usize,),
                    #[trigger] longer[s],
                ) by {
                    if s < shard {
                        assert(longer[s] == answers[s]);
                    }
                }
            }
            match answer {
                Err(error) => {
                    assert(counted(length, longer, self@.shards));
                    return Err(error);
                },
                Ok(count) => {
                    total = if count > usize::MAX - total {
                        usize::MAX
                    } else {
                        total + count
                    };
                },
            }
            proof {
                answers = longer;
            }
            shard = shard + 1;
        }
        assert(counted(length, answers, self@.shards));
        Ok(total)
    }
}

impl ShardedCollection {
    /// Whether there are no points. `empty` asks a shard; behind the first that has
    /// points, or refuses, none is asked.
    pub fn is_empty<E: Fn(usize) -> Result<bool>>(&self, empty: E) -> (result: Result<bool>)
        requires
            self.wf(),
            forall|shard: usize| shard < self@.shards ==> #[trigger] empty.requires((shard,)),
        ensures
            match result {
                Ok(true) => all_empty(empty, self@.shards),
                Ok(false) => exists|s: usize|
                    s < self@.shards && #[trigger] empty.ensures((s,), Ok(false)) && all_empty(
                        empty,
                        s as nat,
                    ),
                Err(error) => exists|s: usize|
                    s < self@.shards && #[trigger] empty.ensures((s,), Err(error)) && all_empty(
                        empty,
                        s as nat,
                    ),
            },
    {
        let mut shard: usize = 0;
        while shard < self.shards
            invariant
                shard <= self.shards,
                forall|x: usize| x < self.shards ==> #[trigger] empty.requires((x,)),
                forall|s: usize| s < shard ==> #[trigger] empty.ensures((s,), Ok(true)),
            decreases self.shards - shard,
        {
            let answer = empty(shard);
            assert(empty.ensures((shard,), answer));
            match answer {
                Err(error) => {
                    return Err(error);
                },
                Ok(is_empty) => {
                    if !is_empty {
                        return Ok(false);
                    }
                },
            }
            shard = shard + 1;
        }
        Ok(true)
    }

    /// Flushes every shard in turn, up to the first refusal. `flush` flushes a shard
    /// and gives the sequence and the number of its points.
    pub fn flush<F: Fn(usize) -> Result<(u64, usize)>>(&self, flush: F) -> (result: Result<
        Vec<ShardCommit>,
    >)
        requires
            self.wf(),
            forall|done: Seq<ShardCommit>|
                done.len() < self@.shards && #[trigger] flushed_upto(flush, done) ==> flush.requires(
                    (done.len() as usize,),
                ),
        ensures
            match result {
                Ok(commits) => commits@.len() == self@.shards && flushed_upto(flush, commits@),
                Err(error) => exists|done: Seq<ShardCommit>| #[trigger]
                    flushed_upto(flush, done) && done.len() < self@.shards && flush.ensures(
                        (done.len() as usize,),
                        Err(error),
                    ),
            },
    {
        let mut commits: Vec<ShardCommit> = Vec::new();
        let mut shard: usize = 0;
        while shard < self.shards
            invariant
                shard <= self.shards,
                commits@.len() == shard,
                forall|done: Seq<ShardCommit>|
                    done.len() < self.shards && #[trigger] flushed_upto(flush, done)
                        ==> flush.requires((done.len() as usize,)),
                flushed_upto(flush, commits@),
            decreases self.shards - shard,
        {
            assert(commits@.len() as usize == shard);
            let answer = flush(shard);
            assert(flush.ensures((shard,), answer));
            match answer {
                Err(error) => {
                    assert(commits@.len() as usize == shard);
                    return Err(error);
                },
                Ok((sequence, affected_points)) => {
                    assert((shard as int) as usize == shard);
                    commits.push(ShardCommit { shard, sequence, affected_points });
                },
            }
            shard = shard + 1;
        }
        Ok(commits)
    }
}

/// The shards before one say that they are empty.
pub open spec fn all_empty<E: Fn(usize) -> Result<bool>>(empty: E, count: nat) -> bool {
    forall|s: usize| s < count ==> #[trigger] empty.ensures((s,), Ok(true))
}

/// The first shards were flushed in turn, with these commits.
pub open spec fn flushed_upto<F: Fn(usize) -> Result<(u64, usize)>>(
    flush: F,
    commits: Seq<ShardCommit>,
) -> bool {
    forall|s: int|
        0 <= s < commits.len() ==> (#[trigger] commits[s]).shard == s && flush.ensures(
            (s as usize,),
            Ok((commits[s].sequence, commits[s].affected_points)),
        )
}

/// An ID that is empty.
pub open spec fn has_empty_id(ids: Seq<Seq<char>>) -> bool {
    exists|i: int| 0 <= i < ids.len() && (#[trigger] ids[i]).len() == 0
}

/// Whether an ID is empty.
pub(crate) fn any_empty(ids: &Vec<String>) -> (any: bool)
    ensures
        any == has_empty_id(views(ids@)),
{
    let mut i: usize = 0;
    while i < ids.len()
        invariant
            i <= ids@.len(),
            forall|j: int| 0 <= j < i ==> (#[trigger] views(ids@)[j]).len() > 0,
        decreases ids.len() - i,
    {
        if ids[i].as_str().is_empty() {
            assert(views(ids@)[i as int].len() == 0);
            return true;
        }
        assert(views(ids@)[i as int].len() > 0);
        i = i + 1;
    }
    false
}

/// The shards were asked in turn, all of them or up to the first refusal.
pub open spec fn counted<L: Fn(usize) -> Result<usize>>(
    length: L,
    answers: Seq<Result<usize>>,
    count: nat,
) -> bool {
    &&& answers.len() <= count
    &&& answers.len() < count ==> answers.len() > 0 && answers.last() is Err
    &&& forall|s: int|
        0 <= s < answers.len() ==> length.ensures((s as usize,), #[trigger] answers[s])
}

/// The sum of the shards' numbers, as far as a size can be, or the first refusal.
pub open spec fn total_of(answers: Seq<Result<usize>>) -> core::result::Result<usize, Error>
    decreases answers.len(),
{
    if answers.len() == 0 {
        Ok(0)
    } else {
        match total_of(answers.drop_last()) {
            Err(error) => Err(error),
            Ok(total) => match answers.last() {
                Err(error) => Err(error),
                Ok(count) => Ok(sum_up_to_max(total as nat, count as nat)),
            },
        }
    }
}

/// Every item of a request is in the batch of its own shard and in no other.
pub proof fn law_items_go_to_their_shards<T: Routed>(items: Seq<T::V>, count: nat, i: int, shard: int)
    requires
        0 <= i < items.len(),
    ensures
        shard == shard_of(T::key_of(items[i]), count) ==> batch_of::<T>(
            items,
            count,
            shard,
        ).contains(items[i]),
        batch_of::<T>(items, count, shard).contains(items[i]) ==> shard == shard_of(
            T::key_of(items[i]),
            count,
        ),
    decreases items.len(),
{
    let batch = batch_of::<T>(items, count, shard);
    if batch.contains(items[i]) {
        let x = choose|x: int| 0 <= x < batch.len() && batch[x] == items[i];
        lemma_batch_key::<T>(items, count, shard, x);
    }
    if shard == shard_of(T::key_of(items[i]), count) {
        let rest = items.drop_last();
        if i < rest.len() {
            law_items_go_to_their_shards::<T>(rest, count, i, shard);
            let front = batch_of::<T>(rest, count, shard);
            let x = choose|x: int| 0 <= x < front.len() && front[x] == rest[i];
            assert(batch[x] == items[i]);
        } else {
            assert(batch[batch.len() - 1] == items[i]);
        }
    }
}

/// The batch of a shard is the request without what belongs to other shards: nothing is
/// added, nothing is left out or doubled, and the order of the request is kept.
pub proof fn law_batches_are_parts_of_the_request<T: Routed>(
    items: Seq<T::V>,
    count: nat,
    shard: int,
)
    ensures
        batch_of::<T>(items, count, shard) == items.filter(
            |item: T::V| shard_of(T::key_of(item), count) == shard,
        ),
    decreases items.len(),
{
    reveal(Seq::filter);
    if items.len() > 0 {
        law_batches_are_parts_of_the_request::<T>(items.drop_last(), count, shard);
    }
}

/// Every ID belongs to one of the shards, and where there is one shard, to it.
pub proof fn law_every_id_has_a_shard(id: Seq<char>, count: nat)
    requires
        count > 0,
    ensures
        0 <= shard_of(id, count) < count,
        count == 1 ==> shard_of(id, count) == 0,
{
}

proof fn lemma_batch_key<T: Routed>(items: Seq<T::V>, count: nat, shard: int, x: int)
    requires
        0 <= x < batch_of::<T>(items, count, shard).len(),
    ensures
        shard_of(T::key_of(batch_of::<T>(items, count, shard)[x]), count) == shard,
    decreases items.len(),
{
    if items.len() > 0 {
        let front = batch_of::<T>(items.drop_last(), count, shard);
        if x < front.len() {
            lemma_batch_key::<T>(items.drop_last(), count, shard, x);
        }
    }
}

proof fn lemma_no_upsert_fault<K: Kernel>(
    kernel: K,
    config: CollectionConfig,
    points: Seq<UpsertView>,
    count: nat,
    shard: int,
    upto: int,
)
    requires
        0 <= shard < upto,
        upsert_fault(kernel, config, points, count, upto) is None,
        batch_of::<UpsertPoint>(points, count, shard).len() > 0,
    ensures
        logged_batch(kernel, config, batch_of::<UpsertPoint>(points, count, shard), 1) is Ok,
    decreases upto,
{
    if shard < upto - 1 {
        lemma_no_upsert_fault(kernel, config, points, count, shard, upto - 1);
    }
}

/// A request that was checked as a whole is a commit of every shard that has a part
/// of it: after the check a shard refuses only for what befalls the shard itself, or
/// when it has come to the end of its sequences.
pub proof fn law_checked_requests_are_valid_in_every_shard<K: Kernel>(
    kernel: K,
    config: CollectionConfig,
    points: Seq<UpsertView>,
    count: nat,
    shard: int,
    before: PersistedView,
)
    requires
        checked_points(kernel, config, points, count) is Ok,
        0 <= shard < count,
        batch_of::<UpsertPoint>(points, count, shard).len() > 0,
        before.collection.config == config,
        before.collection.sequence < u64::MAX,
    ensures
        upsert_commit(kernel, before, batch_of::<UpsertPoint>(points, count, shard)) is Ok,
{
    let batch = batch_of::<UpsertPoint>(points, count, shard);
    lemma_no_upsert_fault(kernel, config, points, count, shard, count as int);
    lemma_logged_at_any_sequence(
        kernel,
        config,
        batch,
        1,
        (before.collection.sequence + 1) as u64,
    );
}

proof fn lemma_no_removal_fault(ids: Seq<Seq<char>>, count: nat, shard: int, upto: int)
    requires
        0 <= shard < upto,
        removal_fault(ids, count, upto) is None,
    ensures
        framed(encoded_delete(1, batch_of::<String>(ids, count, shard))) is Ok,
    decreases upto,
{
    if shard < upto - 1 {
        lemma_no_removal_fault(ids, count, shard, upto - 1);
    }
}

/// What stands in a batch stands in the request.
proof fn lemma_batch_of_request(ids: Seq<Seq<char>>, count: nat, shard: int, x: int)
    requires
        0 <= x < batch_of::<String>(ids, count, shard).len(),
    ensures
        ids.contains(batch_of::<String>(ids, count, shard)[x]),
    decreases ids.len(),
{
    if ids.len() > 0 {
        let rest = ids.drop_last();
        let front = batch_of::<String>(rest, count, shard);
        if x < front.len() {
            lemma_batch_of_request(rest, count, shard, x);
            let i = choose|i: int| 0 <= i < rest.len() && rest[i] == front[x];
            assert(ids[i] == front[x]);
        } else {
            assert(ids[ids.len() - 1] == ids.last());
        }
    }
}

/// The same of deletions.
pub proof fn law_checked_deletions_are_valid_in_every_shard(
    ids: Seq<Seq<char>>,
    count: nat,
    shard: int,
    before: PersistedView,
)
    requires
        checked_ids(ids, count) is Ok,
        0 <= shard < count,
        batch_of::<String>(ids, count, shard).len() > 0,
        before.collection.sequence < u64::MAX,
    ensures
        delete_commit(before, batch_of::<String>(ids, count, shard)) is Ok,
{
    let batch = batch_of::<String>(ids, count, shard);
    lemma_no_removal_fault(ids, count, shard, count as int);
    assert forall|x: int| 0 <= x < batch.len() implies (#[trigger] batch[x]).len() > 0 by {
        lemma_batch_of_request(ids, count, shard, x);
        let i = choose|i: int| 0 <= i < ids.len() && ids[i] == batch[x];
        assert(ids[i].len() > 0);
    }
    lemma_le_round_trip(1, 8);
    lemma_le_round_trip((before.collection.sequence + 1) as nat, 8);
}

/// The points of all shards.
pub open spec fn whole_pool<K: Kernel>(
    kernel: K,
    metric: Metric,
    shards: Seq<Map<Seq<char>, PointView>>,
    query: Seq<u32>,
    filter: Option<&Filter>,
) -> Set<Ranked> {
    Set::new(
        |r: Ranked|
            exists|s: int|
                0 <= s < shards.len() && #[trigger] pool(
                    kernel,
                    metric,
                    shards[s],
                    query,
                    shards[s].dom(),
                    filter,
                ).contains(r),
    )
}

/// Where every shard holds only its own points and answers exactly, the merged
/// results are the exact `k` best of all points.
pub proof fn law_merged_shards_are_exact<K: Kernel>(
    kernel: K,
    metric: Metric,
    shards: Seq<Map<Seq<char>, PointView>>,
    query: Seq<u32>,
    filter: Option<&Filter>,
    k: usize,
    answers: Seq<Vec<SearchHit>>,
    hits: Seq<SearchHit>,
    merged: Seq<SearchHit>,
)
    requires
        k > 0,
        answers.len() == shards.len(),
        forall|s: int, id: Seq<char>|
            0 <= s < shards.len() && #[trigger] shards[s].contains_key(id) ==> shard_of(
                id,
                shards.len(),
            ) == s,
        forall|s: int|
            0 <= s < shards.len() ==> found(
                kernel,
                metric,
                shards[s],
                query,
                shards[s].dom(),
                filter,
                k as nat,
                views((#[trigger] answers[s])@),
            ),
        all_hits(successes(answers)) == Ok::<Seq<SearchHit>, Error>(hits),
        top_of(hits, k, merged),
    ensures
        best_of(
            ranks(views(merged)),
            whole_pool(kernel, metric, shards, query, filter),
            k as nat,
        ),
{
    let pools = Seq::new(
        shards.len(),
        |s: int| pool(kernel, metric, shards[s], query, shards[s].dom(), filter),
    );
    let parts = Seq::new(shards.len(), |s: int| ranks(views(answers[s]@)));
    lemma_gathered_hits(kernel, metric, shards, query, filter, k, answers, hits);
    law_top_keeps_the_best(hits, k, merged);
    let all = Set::new(
        |r: Ranked| exists|i: int| 0 <= i < parts.len() && (#[trigger] parts[i]).contains(r),
    );
    let whole = Set::new(
        |r: Ranked| exists|i: int| 0 <= i < pools.len() && (#[trigger] pools[i]).contains(r),
    );
    assert forall|r: Ranked| rank_set(hits).contains(r) <==> all.contains(r) by {
        if rank_set(hits).contains(r) {
            let x = choose|x: int| 0 <= x < hits.len() && (#[trigger] hits[x])@.rank() == r;
            assert(given_by(answers, hits[x]));
            let (s, y) = choose|s: int, y: int|
                #![trigger answers[s]@[y]]
                0 <= s < answers.len() && 0 <= y < answers[s]@.len() && answers[s]@[y] == hits[x];
            assert(parts[s][y] == r);
            assert(parts[s].contains(r));
        }
        if all.contains(r) {
            let s = choose|s: int| 0 <= s < parts.len() && (#[trigger] parts[s]).contains(r);
            let y = choose|y: int| 0 <= y < parts[s].len() && parts[s][y] == r;
            assert(answers[s]@[y]@.rank() == r);
            assert(hits.contains(answers[s]@[y]));
            let x = choose|x: int| 0 <= x < hits.len() && hits[x] == answers[s]@[y];
            assert(hits[x]@.rank() == r);
        }
    }
    assert(rank_set(hits) =~= all);
    assert forall|i: int| 0 <= i < parts.len() implies best_of(
        #[trigger] parts[i],
        pools[i],
        k as nat,
    ) by {
        assert(found(
            kernel,
            metric,
            shards[i],
            query,
            shards[i].dom(),
            filter,
            k as nat,
            views(answers[i]@),
        ));
    }
    law_merged_parts_are_the_whole(parts, pools, ranks(views(merged)), k as nat);
    let wanted = whole_pool(kernel, metric, shards, query, filter);
    assert forall|r: Ranked| whole.contains(r) <==> wanted.contains(r) by {
        if whole.contains(r) {
            let i = choose|i: int| 0 <= i < pools.len() && (#[trigger] pools[i]).contains(r);
            assert(pool(kernel, metric, shards[i], query, shards[i].dom(), filter).contains(r));
        }
        if wanted.contains(r) {
            let i = choose|i: int|
                0 <= i < shards.len() && #[trigger] pool(
                    kernel,
                    metric,
                    shards[i],
                    query,
                    shards[i].dom(),
                    filter,
                ).contains(r);
            assert(pools[i].contains(r));
        }
    }
    assert(whole =~= wanted);
}

/// Answers that are all successes.
pub open spec fn successes(answers: Seq<Vec<SearchHit>>) -> Seq<Result<Vec<SearchHit>>> {
    Seq::new(answers.len(), |s: int| Ok(answers[s]))
}

/// A result stands in one of the answers.
spec fn given_by(answers: Seq<Vec<SearchHit>>, hit: SearchHit) -> bool {
    exists|s: int, y: int|
        #![trigger answers[s]@[y]]
        0 <= s < answers.len() && 0 <= y < answers[s]@.len() && answers[s]@[y] == hit
}

/// Everything that the shards answered is gathered, and no ID stands twice.
proof fn lemma_gathered_hits<K: Kernel>(
    kernel: K,
    metric: Metric,
    shards: Seq<Map<Seq<char>, PointView>>,
    query: Seq<u32>,
    filter: Option<&Filter>,
    k: usize,
    answers: Seq<Vec<SearchHit>>,
    hits: Seq<SearchHit>,
)
    requires
        answers.len() <= shards.len(),
        forall|s: int, id: Seq<char>|
            0 <= s < shards.len() && #[trigger] shards[s].contains_key(id) ==> shard_of(
                id,
                shards.len(),
            ) == s,
        forall|s: int|
            0 <= s < answers.len() ==> found(
                kernel,
                metric,
                shards[s],
                query,
                shards[s].dom(),
                filter,
                k as nat,
                views((#[trigger] answers[s])@),
            ),
        all_hits(successes(answers)) == Ok::<Seq<SearchHit>, Error>(hits),
    ensures
        distinct_ids(hits),
        forall|x: int| 0 <= x < hits.len() ==> given_by(answers, #[trigger] hits[x]),
        forall|s: int, y: int|
            #![trigger answers[s]@[y]]
            0 <= s < answers.len() && 0 <= y < answers[s]@.len() ==> hits.contains(answers[s]@[y]),
        forall|x: int|
            0 <= x < hits.len() ==> shard_of((#[trigger] hits[x]).id@, shards.len())
                < answers.len(),
    decreases answers.len(),
{
    if answers.len() > 0 {
        let rest = answers.drop_last();
        let last = answers.last()@;
        let n = rest.len() as int;
        assert(successes(answers).drop_last() =~= successes(rest));
        let before = all_hits(successes(rest))->Ok_0;
        assert forall|s: int| 0 <= s < rest.len() implies found(
            kernel,
            metric,
            shards[s],
            query,
            shards[s].dom(),
            filter,
            k as nat,
            views((#[trigger] rest[s])@),
        ) by {
            assert(rest[s] == answers[s]);
        }
        lemma_gathered_hits(kernel, metric, shards, query, filter, k, rest, before);
        assert(hits == before + last);
        assert(found(
            kernel,
            metric,
            shards[n],
            query,
            shards[n].dom(),
            filter,
            k as nat,
            views(answers[n]@),
        ));
        let part = ranks(views(last));
        let own = pool(kernel, metric, shards[n], query, shards[n].dom(), filter);
        lemma_descending_distinct(part);
        assert forall|y: int| 0 <= y < last.len() implies shard_of(
            (#[trigger] last[y]).id@,
            shards.len(),
        ) == n by {
            assert(own.contains(part[y]));
            assert(shards[n].contains_key(last[y].id@));
        }
        assert forall|i: int, j: int| 0 <= i < j < hits.len() implies (#[trigger] hits[i]).id@ != (
        #[trigger] hits[j]).id@ by {
            if j < before.len() {
                assert(hits[i] == before[i] && hits[j] == before[j]);
            } else if i >= before.len() {
                let a = i - before.len();
                let b = j - before.len();
                assert(hits[i] == last[a] && hits[j] == last[b]);
                assert(own.contains(part[a]) && own.contains(part[b]));
                assert(part[a] != part[b]);
            } else {
                let b = j - before.len();
                assert(hits[i] == before[i] && hits[j] == last[b]);
                assert(shard_of(before[i].id@, shards.len()) < n);
                assert(shard_of(last[b].id@, shards.len()) == n);
            }
        }
        assert forall|x: int| 0 <= x < hits.len() implies given_by(answers, #[trigger] hits[x])
            && shard_of(hits[x].id@, shards.len()) < answers.len() by {
            if x < before.len() {
                assert(hits[x] == before[x]);
                assert(given_by(rest, before[x]));
                let (s, y) = choose|s: int, y: int|
                    #![trigger rest[s]@[y]]
                    0 <= s < rest.len() && 0 <= y < rest[s]@.len() && rest[s]@[y] == before[x];
                assert(answers[s]@[y] == hits[x]);
            } else {
                let y = x - before.len();
                assert(hits[x] == last[y]);
                assert(answers[n]@[y] == hits[x]);
            }
        }
        assert forall|s: int, y: int|
            #![trigger answers[s]@[y]]
            0 <= s < answers.len() && 0 <= y < answers[s]@.len() implies hits.contains(
            answers[s]@[y],
        ) by {
            if s < n {
                assert(rest[s]@[y] == answers[s]@[y]);
                assert(before.contains(rest[s]@[y]));
                let x = choose|x: int| 0 <= x < before.len() && before[x] == rest[s]@[y];
                assert(hits[x] == answers[s]@[y]);
            } else {
                assert(hits[before.len() + y] == answers[s]@[y]);
            }
        }
    }
}

proof fn lemma_commits_list(sizes: Seq<nat>, answers: Seq<Result<u64>>)
    requires
        sizes.len() <= usize::MAX,
    ensures
        commits_of(sizes, answers) matches Ok(list) ==> {
            &&& forall|s: int|
                0 <= s < sizes.len() && #[trigger] sizes[s] > 0 ==> answers[s] is Ok
                    && list.contains(
                    ShardCommit {
                        shard: s as usize,
                        sequence: answers[s]->Ok_0,
                        affected_points: sizes[s] as usize,
                    },
                )
            &&& forall|x: int|
                0 <= x < list.len() ==> (#[trigger] list[x]).shard < sizes.len()
                    && sizes[list[x].shard as int] > 0
            &&& forall|x: int, y: int|
                0 <= x < y < list.len() ==> (#[trigger] list[x]).shard < (#[trigger] list[y]).shard
        },
        commits_of(sizes, answers) matches Err(error) ==> exists|s: int|
            #![trigger answers[s]]
            0 <= s < sizes.len() && sizes[s] > 0 && answers[s] == Err::<u64, Error>(error)
                && commits_of(sizes.subrange(0, s), answers) is Ok,
    decreases sizes.len(),
{
    if sizes.len() > 0 {
        let front = sizes.drop_last();
        let end = sizes.len() - 1;
        lemma_commits_list(front, answers);
        assert(sizes.subrange(0, end) =~= front);
        match commits_of(sizes, answers) {
            Ok(list) => {
                let before = commits_of(front, answers)->Ok_0;
                assert forall|s: int| 0 <= s < sizes.len() && #[trigger] sizes[s]
                    > 0 implies answers[s] is Ok && list.contains(
                    ShardCommit {
                        shard: s as usize,
                        sequence: answers[s]->Ok_0,
                        affected_points: sizes[s] as usize,
                    },
                ) by {
                    let commit = ShardCommit {
                        shard: s as usize,
                        sequence: answers[s]->Ok_0,
                        affected_points: sizes[s] as usize,
                    };
                    if s < end {
                        assert(front[s] == sizes[s]);
                        let x = choose|x: int| 0 <= x < before.len() && before[x] == commit;
                        assert(list[x] == commit);
                    } else {
                        assert(list[list.len() - 1] == commit);
                    }
                }
                assert forall|x: int| 0 <= x < list.len() implies (#[trigger] list[x]).shard
                    < sizes.len() && sizes[list[x].shard as int] > 0 by {
                    if x < before.len() {
                        assert(list[x] == before[x]);
                        assert(front[before[x].shard as int] == sizes[before[x].shard as int]);
                    }
                }
                assert forall|x: int, y: int| 0 <= x < y < list.len() implies (
                #[trigger] list[x]).shard < (#[trigger] list[y]).shard by {
                    assert(list[x] == before[x]);
                    if y < before.len() {
                        assert(list[y] == before[y]);
                    }
                }
            },
            Err(error) => {
                if commits_of(front, answers) is Err {
                    let s = choose|s: int|
                        #![trigger answers[s]]
                        0 <= s < front.len() && front[s] > 0 && answers[s] == Err::<u64, Error>(
                            error,
                        ) && commits_of(front.subrange(0, s), answers) is Ok;
                    assert(front.subrange(0, s) =~= sizes.subrange(0, s));
                    assert(front[s] == sizes[s]);
                    assert(answers[s] == Err::<u64, Error>(error));
                } else {
                    assert(answers[end] == Err::<u64, Error>(error));
                }
            },
        }
    }
}

/// The items of a request that belong to a shard.
pub open spec fn share<T: Routed>(items: Seq<T::V>, count: nat, shard: int) -> Seq<T::V> {
    items.filter(|item: T::V| shard_of(T::key_of(item), count) == shard)
}

/// A request that succeeds has reached every item: the shard of each item was handed all
/// the items that are its own, and the list holds the commit that it answered with, and
/// how many items that were. Shards without an item have no commit, and the commits come
/// in the order of the shards.
pub proof fn law_commits_cover_the_request<T: Routed, C: Fn(usize, Vec<T>) -> Result<u64>>(
    commit: C,
    items: Seq<T::V>,
    count: nat,
    result: Result<Vec<ShardCommit>>,
)
    requires
        0 < count <= usize::MAX,
        items.len() <= usize::MAX,
        answered::<T, C>(commit, items, count, result),
        result is Ok,
    ensures
        forall|i: int|
            0 <= i < items.len() ==> {
                let shard = shard_of(T::key_of(#[trigger] items[i]), count);
                exists|x: int|
                    {
                        &&& 0 <= x < result->Ok_0@.len()
                        &&& (#[trigger] result->Ok_0@[x]).shard == shard
                        &&& result->Ok_0@[x].affected_points == share::<T>(items, count, shard).len()
                        &&& committed::<T, C>(
                            commit,
                            shard,
                            share::<T>(items, count, shard),
                            Ok(result->Ok_0@[x].sequence),
                        )
                    }
            },
        forall|x: int|
            0 <= x < result->Ok_0@.len() ==> (#[trigger] result->Ok_0@[x]).shard < count && share::<
                T,
            >(items, count, result->Ok_0@[x].shard as int).len() > 0,
        forall|x: int, y: int|
            0 <= x < y < result->Ok_0@.len() ==> (#[trigger] result->Ok_0@[x]).shard < (
            #[trigger] result->Ok_0@[y]).shard,
{
    let sizes = sizes_of::<T>(items, count);
    let answers = choose|answers: Seq<Result<u64>>| #[trigger]
        asked::<T, C>(commit, items, count, answers) && match commits_of(sizes, answers) {
            Ok(list) => result is Ok && result->Ok_0@ == list,
            Err(error) => result == Err::<Vec<ShardCommit>, Error>(error),
        };
    let list = result->Ok_0@;
    lemma_commits_list(sizes, answers);
    assert forall|i: int| 0 <= i < items.len() implies ({
        let shard = shard_of(T::key_of(#[trigger] items[i]), count);
        exists|x: int|
            {
                &&& 0 <= x < list.len()
                &&& (#[trigger] list[x]).shard == shard
                &&& list[x].affected_points == share::<T>(items, count, shard).len()
                &&& committed::<T, C>(
                    commit,
                    shard,
                    share::<T>(items, count, shard),
                    Ok(list[x].sequence),
                )
            }
    }) by {
        let shard = shard_of(T::key_of(items[i]), count);
        law_every_id_has_a_shard(T::key_of(items[i]), count);
        law_items_go_to_their_shards::<T>(items, count, i, shard);
        law_batches_are_parts_of_the_request::<T>(items, count, shard);
        let part = share::<T>(items, count, shard);
        assert(part == batch_of::<T>(items, count, shard));
        items.lemma_filter_len(|item: T::V| shard_of(T::key_of(item), count) == shard);
        assert(part.len() > 0);
        assert(sizes[shard] == part.len());
        let own = ShardCommit {
            shard: shard as usize,
            sequence: answers[shard]->Ok_0,
            affected_points: sizes[shard] as usize,
        };
        assert(list.contains(own));
        let x = choose|x: int| 0 <= x < list.len() && list[x] == own;
        if commits_of(sizes.subrange(0, shard), answers) is Err {
            lemma_commits_refused(sizes, answers, shard);
        }
        assert(answers[shard] == Ok::<u64, Error>(own.sequence));
        assert(list[x].shard == shard);
    }
    assert forall|x: int| 0 <= x < list.len() implies (#[trigger] list[x]).shard < count && share::<
        T,
    >(items, count, list[x].shard as int).len() > 0 by {
        law_batches_are_parts_of_the_request::<T>(items, count, list[x].shard as int);
        assert(sizes[list[x].shard as int] == batch_of::<T>(
            items,
            count,
            list[x].shard as int,
        ).len());
    }
}

/// A request that fails tells the refusal of a shard that was handed its own items, and
/// every shard before it that had items was handed them and did not refuse.
pub proof fn law_refusals_come_from_a_shard<T: Routed, C: Fn(usize, Vec<T>) -> Result<u64>>(
    commit: C,
    items: Seq<T::V>,
    count: nat,
    result: Result<Vec<ShardCommit>>,
) -> (shard: int)
    requires
        0 < count <= usize::MAX,
        answered::<T, C>(commit, items, count, result),
        result is Err,
    ensures
        0 <= shard < count,
        share::<T>(items, count, shard).len() > 0,
        committed::<T, C>(
            commit,
            shard,
            share::<T>(items, count, shard),
            Err(result->Err_0),
        ),
        forall|s: int|
            0 <= s < shard && (#[trigger] share::<T>(items, count, s)).len() > 0 ==> exists|
                sequence: u64,
            | #[trigger]
                committed::<T, C>(commit, s, share::<T>(items, count, s), Ok(sequence)),
{
    let sizes = sizes_of::<T>(items, count);
    let answers = choose|answers: Seq<Result<u64>>| #[trigger]
        asked::<T, C>(commit, items, count, answers) && match commits_of(sizes, answers) {
            Ok(list) => result is Ok && result->Ok_0@ == list,
            Err(error) => result == Err::<Vec<ShardCommit>, Error>(error),
        };
    lemma_commits_list(sizes, answers);
    let shard = choose|s: int|
        #![trigger answers[s]]
        0 <= s < sizes.len() && sizes[s] > 0 && answers[s] == Err::<u64, Error>(result->Err_0)
            && commits_of(sizes.subrange(0, s), answers) is Ok;
    law_batches_are_parts_of_the_request::<T>(items, count, shard);
    assert(share::<T>(items, count, shard) == batch_of::<T>(items, count, shard));
    assert(sizes[shard] == batch_of::<T>(items, count, shard).len());
    let before = sizes.subrange(0, shard);
    lemma_commits_list(before, answers);
    assert forall|s: int|
        0 <= s < shard && (#[trigger] share::<T>(items, count, s)).len() > 0 implies exists|
        sequence: u64,
    | #[trigger]
        committed::<T, C>(commit, s, share::<T>(items, count, s), Ok(sequence)) by {
        law_batches_are_parts_of_the_request::<T>(items, count, s);
        assert(share::<T>(items, count, s) == batch_of::<T>(items, count, s));
        assert(sizes[s] == batch_of::<T>(items, count, s).len());
        assert(before[s] > 0);
        if commits_of(before.subrange(0, s), answers) is Err {
            lemma_commits_refused(before, answers, s);
        }
        assert(before.subrange(0, s) =~= sizes.subrange(0, s));
        let sequence = answers[s]->Ok_0;
        assert(answers[s] == Ok::<u64, Error>(sequence));
        assert(committed::<T, C>(commit, s, share::<T>(items, count, s), Ok(sequence)));
    }
    shard
}

/// The number of points is the sum of what the shards count, as far as a size can be,
/// and it is known exactly where every shard tells its own.
pub proof fn law_counts_add_up(answers: Seq<Result<usize>>)
    ensures
        total_of(answers) is Ok <==> forall|s: int|
            0 <= s < answers.len() ==> (#[trigger] answers[s]) is Ok,
        total_of(answers) matches Ok(total) ==> {
            let sum = answers.fold_left(0int, |sum: int, n: Result<usize>| sum + n->Ok_0);
            total == if sum <= usize::MAX {
                sum
            } else {
                usize::MAX as int
            }
        },
    decreases answers.len(),
{
    let add_up = |sum: int, n: Result<usize>| sum + n->Ok_0;
    if answers.len() > 0 {
        let front = answers.drop_last();
        law_counts_add_up(front);
        assert(answers.fold_left(0int, add_up) == front.fold_left(0int, add_up)
            + answers.last()->Ok_0) by {
            reveal(Seq::fold_left);
        }
        assert forall|s: int| 0 <= s < front.len() implies front[s] == #[trigger] answers[s] by {}
        if total_of(answers) is Ok {
            assert forall|s: int| 0 <= s < answers.len() implies (#[trigger] answers[s]) is Ok by {
                if s < front.len() {
                    assert(front[s] is Ok);
                }
            }
        } else if total_of(front) is Ok {
            assert(answers[answers.len() - 1] is Err);
        }
    }
}

/// Where the number of shards is multiplied, the points of each shard are spread over as
/// many of its own: the shard of an ID among many tells its shard among few.
pub proof fn law_more_shards_split_each(id: Seq<char>, count: nat, times: nat)
    requires
        count > 0,
        times > 0,
    ensures
        shard_of(id, count * times) % count as int == shard_of(id, count),
{
    let hash = (fnv1a(encode_utf8(id)) as usize) as int;
    vstd::arithmetic::div_mod::lemma_mod_mod(hash, count as int, times as int);
}

/// A search fails exactly where a shard refuses, and tells the first refusal; otherwise
/// every result of every shard is gathered, and nothing else.
pub proof fn law_gathering_takes_every_answer(answers: Seq<Result<Vec<SearchHit>>>)
    ensures
        all_hits(answers) is Ok <==> forall|s: int|
            0 <= s < answers.len() ==> (#[trigger] answers[s]) is Ok,
        all_hits(answers) matches Err(error) ==> exists|s: int|
            0 <= s < answers.len() && (#[trigger] answers[s]) == Err::<Vec<SearchHit>, Error>(error)
                && forall|t: int| 0 <= t < s ==> (#[trigger] answers[t]) is Ok,
        all_hits(answers) matches Ok(hits) ==> forall|hit: SearchHit| #[trigger]
            hits.contains(hit) <==> exists|s: int|
            0 <= s < answers.len() && (#[trigger] answers[s])->Ok_0@.contains(hit),
    decreases answers.len(),
{
    if answers.len() > 0 {
        let rest = answers.drop_last();
        let end = answers.len() - 1;
        law_gathering_takes_every_answer(rest);
        assert forall|s: int| 0 <= s < rest.len() implies rest[s] == #[trigger] answers[s] by {}
        match all_hits(rest) {
            Err(error) => {
                let s = choose|s: int|
                    0 <= s < rest.len() && (#[trigger] rest[s]) == Err::<Vec<SearchHit>, Error>(
                        error,
                    ) && forall|t: int| 0 <= t < s ==> (#[trigger] rest[t]) is Ok;
                assert(answers[s] == Err::<Vec<SearchHit>, Error>(error));
                assert forall|t: int| 0 <= t < s implies (#[trigger] answers[t]) is Ok by {
                    assert(rest[t] is Ok);
                }
            },
            Ok(hits) => {
                assert forall|t: int| 0 <= t < end implies (#[trigger] answers[t]) is Ok by {
                    assert(rest[t] is Ok);
                }
                assert(answers[end] == answers.last());
                if let Ok(more) = answers[end] {
                    let all = hits + more@;
                    assert forall|hit: SearchHit| #[trigger]
                        all.contains(hit) <==> exists|s: int|
                        0 <= s < answers.len() && (#[trigger] answers[s])->Ok_0@.contains(hit) by {
                        if all.contains(hit) {
                            let x = choose|x: int| 0 <= x < all.len() && all[x] == hit;
                            if x < hits.len() {
                                assert(hits[x] == hit);
                                assert(hits.contains(hit));
                                let s = choose|s: int|
                                    0 <= s < rest.len() && (#[trigger] rest[s])->Ok_0@.contains(
                                        hit,
                                    );
                                assert(answers[s]->Ok_0@.contains(hit));
                            } else {
                                assert(more@[x - hits.len()] == hit);
                                assert(answers[end]->Ok_0@.contains(hit));
                            }
                        }
                        if exists|s: int|
                            0 <= s < answers.len() && (#[trigger] answers[s])->Ok_0@.contains(hit) {
                            let s = choose|s: int|
                                0 <= s < answers.len() && (#[trigger] answers[s])->Ok_0@.contains(
                                    hit,
                                );
                            if s < end {
                                assert(rest[s]->Ok_0@.contains(hit));
                                assert(hits.contains(hit));
                                let x = choose|x: int| 0 <= x < hits.len() && hits[x] == hit;
                                assert(all[x] == hit);
                            } else {
                                let x = choose|x: int| 0 <= x < more@.len() && more@[x] == hit;
                                assert(all[hits.len() + x] == hit);
                            }
                        }
                    }
                }
            },
        }
    }
}

/// No two shards share a directory.
pub proof fn law_directories_differ(a: nat, b: nat)
    requires
        shard_directory(a) == shard_directory(b),
    ensures
        a == b,
{
    let word = "shard-"@;
    let digits = |shard: nat|
        if shard < 100000 {
            padded(shard, 5)
        } else {
            crate::text::decimal(shard)
        };
    assert(digits(a) =~= shard_directory(a).skip(word.len() as int));
    assert(digits(b) =~= shard_directory(b).skip(word.len() as int));
    assert(pow(10, 5) == 100000) by {
        reveal_with_fuel(pow, 6);
    }
    law_padded_numerals_are_read_back(a, 5);
    law_padded_numerals_are_read_back(b, 5);
    law_numerals_are_read_back(a);
    law_numerals_are_read_back(b);
}

/// What a request is split into are the shares of the shards, one for each.
pub proof fn law_requests_are_split_into_shares<T: Routed>(
    items: Seq<T::V>,
    count: nat,
    batches: Seq<Vec<T>>,
    shard: int,
)
    requires
        parted::<T>(items, count, batches),
        0 <= shard < count,
    ensures
        batches.len() == count,
        views(batches[shard]@) == share::<T>(items, count, shard),
{
    law_batches_are_parts_of_the_request::<T>(items, count, shard);
}

/// Where every shard holds only its own points and answers exactly, a search over all of
/// them succeeds and gives the exact `k` best of all points.
pub proof fn law_gathered_answers_are_exact<K: Kernel>(
    kernel: K,
    metric: Metric,
    shards: Seq<Map<Seq<char>, PointView>>,
    query: Seq<u32>,
    filter: Option<&Filter>,
    k: usize,
    answers: Seq<Vec<SearchHit>>,
    result: Result<Vec<SearchHit>>,
)
    requires
        k > 0,
        answers.len() == shards.len(),
        forall|s: int, id: Seq<char>|
            0 <= s < shards.len() && #[trigger] shards[s].contains_key(id) ==> shard_of(
                id,
                shards.len(),
            ) == s,
        forall|s: int|
            0 <= s < shards.len() ==> found(
                kernel,
                metric,
                shards[s],
                query,
                shards[s].dom(),
                filter,
                k as nat,
                views((#[trigger] answers[s])@),
            ),
        gathered(successes(answers), k, result),
    ensures
        result is Ok,
        best_of(
            ranks(views(result->Ok_0@)),
            whole_pool(kernel, metric, shards, query, filter),
            k as nat,
        ),
{
    law_gathering_takes_every_answer(successes(answers));
    let hits = all_hits(successes(answers))->Ok_0;
    law_merged_shards_are_exact(
        kernel,
        metric,
        shards,
        query,
        filter,
        k,
        answers,
        hits,
        result->Ok_0@,
    );
}

} // verus!
