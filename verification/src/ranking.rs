//! The order of search results: best score first, ties by point ID.
use crate::bits::{
    law_singles_are_ranked_as_numbers, single_finite, single_place, single_rank, single_value,
};
use crate::text::{compare_text, lemma_text_total, lemma_text_transitive, text_less, Order};
use vstd::prelude::*;

verus! {

/// What decides a result's place: its score, as the bits of a single, and its point ID.
#[verifier::ext_equal]
pub struct Ranked {
    pub score: u32,
    pub id: Seq<char>,
}

/// `a` is the better result: by score in the total order of singles, then by ID.
pub open spec fn better(a: Ranked, b: Ranked) -> bool {
    ||| single_rank(a.score) > single_rank(b.score)
    ||| a.score == b.score && text_less(a.id, b.id)
}

/// Of two different results exactly one is better.
pub proof fn lemma_better_total(a: Ranked, b: Ranked)
    ensures
        a == b || better(a, b) || better(b, a),
        !(better(a, b) && better(b, a)),
        a == b ==> !better(a, b),
{
    lemma_text_total(a.id, b.id);
}

/// Being better is transitive.
pub proof fn lemma_better_transitive(a: Ranked, b: Ranked, c: Ranked)
    requires
        better(a, b),
        better(b, c),
    ensures
        better(a, c),
{
    if a.score == b.score && b.score == c.score {
        lemma_text_transitive(a.id, b.id, c.id);
    }
}

/// Every result is better than the results behind it.
pub open spec fn descending(hits: Seq<Ranked>) -> bool {
    forall|i: int, j: int| 0 <= i < j < hits.len() ==> better(#[trigger] hits[i], #[trigger] hits[j])
}

/// `hits` are the `k` best results of `pool`, best first; all of it, where the
/// pool holds no more than `k`.
pub open spec fn best_of(hits: Seq<Ranked>, pool: Set<Ranked>, k: nat) -> bool {
    &&& hits.len() <= k
    &&& descending(hits)
    &&& forall|i: int| 0 <= i < hits.len() ==> pool.contains(#[trigger] hits[i])
    &&& forall|r: Ranked| #[trigger]
        pool.contains(r) ==> hits.contains(r) || (hits.len() == k && k > 0 && better(
            hits[k - 1],
            r,
        ))
}

/// Whether one result is better than another.
pub fn is_better(score: u32, id: &str, other_score: u32, other_id: &str) -> (better_one: bool)
    ensures
        better_one == better(
            Ranked { score, id: id@ },
            Ranked { score: other_score, id: other_id@ },
        ),
{
    let place: i64 = single_place(score);
    let other_place: i64 = single_place(other_score);
    place > other_place || (score == other_score && compare_text(id, other_id) == Order::Less)
}

/// Results in descending order are all different.
pub proof fn lemma_descending_distinct(hits: Seq<Ranked>)
    requires
        descending(hits),
    ensures
        hits.no_duplicates(),
{
    assert forall|i: int, j: int|
        0 <= i < hits.len() && 0 <= j < hits.len() && i != j implies hits[i] != hits[j] by {
        lemma_better_total(hits[i], hits[j]);
        if i < j {
            assert(better(hits[i], hits[j]));
        } else {
            assert(better(hits[j], hits[i]));
        }
    }
}

/// A descending sequence whose members all occur in another one is no longer than it.
proof fn lemma_members_bound(a: Seq<Ranked>, b: Seq<Ranked>)
    requires
        descending(a),
        descending(b),
        forall|i: int| 0 <= i < a.len() ==> b.contains(#[trigger] a[i]),
    ensures
        a.len() <= b.len(),
{
    lemma_descending_distinct(a);
    lemma_descending_distinct(b);
    a.unique_seq_to_set();
    b.unique_seq_to_set();
    vstd::seq_lib::seq_to_set_is_finite(b);
    assert(a.to_set().subset_of(b.to_set()));
    vstd::set_lib::lemma_len_subset(a.to_set(), b.to_set());
}

/// Search results are determined by what is searched: the `k` best of a pool
/// are one sequence only.
pub proof fn law_results_are_deterministic(
    a: Seq<Ranked>,
    b: Seq<Ranked>,
    pool: Set<Ranked>,
    k: nat,
)
    requires
        best_of(a, pool, k),
        best_of(b, pool, k),
    ensures
        a == b,
{
    lemma_same_members(a, b, pool, k);
    lemma_same_members(b, a, pool, k);
    lemma_members_bound(a, b);
    lemma_members_bound(b, a);
    assert forall|i: int| 0 <= i < a.len() implies a[i] == b[i] by {
        lemma_same_place(a, b, i);
    }
    assert(a =~= b);
}

proof fn lemma_same_place(a: Seq<Ranked>, b: Seq<Ranked>, i: int)
    requires
        descending(a),
        descending(b),
        a.len() == b.len(),
        0 <= i < a.len(),
        forall|x: int| 0 <= x < a.len() ==> b.contains(#[trigger] a[x]),
        forall|x: int| 0 <= x < b.len() ==> a.contains(#[trigger] b[x]),
    ensures
        a[i] == b[i],
    decreases i,
{
    assert forall|x: int| 0 <= x < i implies a[x] == b[x] by {
        lemma_same_place(a, b, x);
    }
    let at = choose|x: int| 0 <= x < b.len() && b[x] == a[i];
    assert(b.contains(a[i]));
    let ta = choose|x: int| 0 <= x < a.len() && a[x] == b[i];
    assert(a.contains(b[i]));
    lemma_descending_distinct(a);
    lemma_descending_distinct(b);
    if at < i {
        assert(a[at] == b[at]);
    } else if at > i {
        assert(better(b[i], a[i]));
        if ta < i {
            assert(a[ta] == b[ta]);
        } else if ta > i {
            assert(better(a[i], b[i]));
            lemma_better_total(a[i], b[i]);
        }
    }
}

proof fn lemma_same_members(a: Seq<Ranked>, b: Seq<Ranked>, pool: Set<Ranked>, k: nat)
    requires
        best_of(a, pool, k),
        best_of(b, pool, k),
    ensures
        forall|i: int| 0 <= i < a.len() ==> b.contains(#[trigger] a[i]),
{
    assert forall|i: int| 0 <= i < a.len() implies b.contains(#[trigger] a[i]) by {
        if !b.contains(a[i]) {
            assert(pool.contains(a[i]));
            assert(b.len() == k && better(b[k - 1], a[i]));
            // All of `b` is better than `a[i]`, so all of it is in `a`, before `a[i]`.
            assert forall|x: int| 0 <= x < b.len() implies a.subrange(0, i).contains(
                #[trigger] b[x],
            ) by {
                if x < k - 1 {
                    assert(better(b[x], b[k - 1]));
                    lemma_better_transitive(b[x], b[k - 1], a[i]);
                }
                assert(better(b[x], a[i]));
                assert(pool.contains(b[x]));
                if !a.contains(b[x]) {
                    assert(better(a[k - 1], b[x]));
                    if i < k - 1 {
                        assert(better(a[i], a[k - 1]));
                        lemma_better_transitive(a[i], a[k - 1], b[x]);
                    }
                    lemma_better_total(a[i], b[x]);
                }
                let y = choose|y: int| 0 <= y < a.len() && a[y] == b[x];
                if y > i {
                    assert(better(a[i], a[y]));
                    lemma_better_total(a[i], b[x]);
                }
                if y == i {
                    lemma_better_total(a[i], b[x]);
                }
                assert(a.subrange(0, i)[y] == b[x]);
            }
            lemma_members_bound(b, a.subrange(0, i));
        }
    }
}

/// The results of a search over parts can be merged: where every part has given
/// its own `k` best, the `k` best of those are the `k` best of everything.
pub proof fn law_merged_parts_are_the_whole(
    parts: Seq<Seq<Ranked>>,
    pools: Seq<Set<Ranked>>,
    hits: Seq<Ranked>,
    k: nat,
)
    requires
        parts.len() == pools.len(),
        forall|i: int| 0 <= i < parts.len() ==> best_of(#[trigger] parts[i], pools[i], k),
        best_of(
            hits,
            Set::new(|r: Ranked| exists|i: int| 0 <= i < parts.len() && (#[trigger] parts[i]).contains(r)),
            k,
        ),
    ensures
        best_of(
            hits,
            Set::new(
                |r: Ranked| exists|i: int| 0 <= i < pools.len() && (#[trigger] pools[i]).contains(r),
            ),
            k,
        ),
{
    let gathered = Set::new(
        |r: Ranked| exists|i: int| 0 <= i < parts.len() && (#[trigger] parts[i]).contains(r),
    );
    let whole = Set::new(
        |r: Ranked| exists|i: int| 0 <= i < pools.len() && (#[trigger] pools[i]).contains(r),
    );
    assert forall|x: int| 0 <= x < hits.len() implies whole.contains(#[trigger] hits[x]) by {
        assert(gathered.contains(hits[x]));
        let i = choose|i: int| 0 <= i < parts.len() && (#[trigger] parts[i]).contains(hits[x]);
        let y = choose|y: int| 0 <= y < parts[i].len() && parts[i][y] == hits[x];
        assert(pools[i].contains(parts[i][y]));
    }
    assert forall|r: Ranked| #[trigger] whole.contains(r) implies hits.contains(r) || (hits.len()
        == k && k > 0 && better(hits[k - 1], r)) by {
        let i = choose|i: int| 0 <= i < pools.len() && (#[trigger] pools[i]).contains(r);
        let part = parts[i];
        assert(best_of(part, pools[i], k));
        assert forall|x: int| 0 <= x < part.len() implies gathered.contains(#[trigger] part[x]) by {
            assert(parts[i].contains(part[x]));
        }
        lemma_part_stands_for_pool(hits, gathered, part, pools[i], k, r);
    }
}

/// Where the best of a pool were taken into account, the whole pool was.
pub proof fn lemma_part_stands_for_pool(
    hits: Seq<Ranked>,
    gathered: Set<Ranked>,
    part: Seq<Ranked>,
    pool: Set<Ranked>,
    k: nat,
    r: Ranked,
)
    requires
        best_of(hits, gathered, k),
        best_of(part, pool, k),
        forall|x: int| 0 <= x < part.len() ==> gathered.contains(#[trigger] part[x]),
        pool.contains(r),
    ensures
        hits.contains(r) || (hits.len() == k && k > 0 && better(hits[k - 1], r)),
{
    if part.contains(r) {
        let x = choose|x: int| 0 <= x < part.len() && part[x] == r;
        assert(gathered.contains(part[x]));
    } else {
        assert(part.len() == k && better(part[k - 1], r));
        if hits.len() < k {
            assert forall|x: int| 0 <= x < part.len() implies hits.contains(#[trigger] part[x]) by {
                assert(gathered.contains(part[x]));
            }
            lemma_members_bound(part, hits);
        }
        let worst = hits[k - 1];
        let last = part[k - 1];
        lemma_better_total(worst, last);
        if worst == last {
        } else if better(worst, last) {
            lemma_better_transitive(worst, last, r);
        } else {
            assert forall|x: int| 0 <= x < part.len() implies hits.subrange(0, k - 1).contains(
                #[trigger] part[x],
            ) by {
                assert(gathered.contains(part[x]));
                if x < k - 1 {
                    assert(better(part[x], last));
                    lemma_better_transitive(part[x], last, worst);
                }
                lemma_better_total(part[x], worst);
                let y = choose|y: int| 0 <= y < hits.len() && hits[y] == part[x];
                assert(hits.contains(part[x]));
                assert(hits.subrange(0, k - 1)[y] == part[x]);
            }
            lemma_members_bound(part, hits.subrange(0, k - 1));
        }
    }
}

/// The higher score comes first, as a number, and of results with one score the one
/// whose ID comes first in the order of texts.
pub proof fn law_higher_scores_come_first(a: Ranked, b: Ranked)
    requires
        single_finite(a.score),
        single_finite(b.score),
    ensures
        single_value(a.score) > single_value(b.score) ==> better(a, b) && !better(b, a),
        better(a, b) ==> single_value(a.score) >= single_value(b.score),
        a.score == b.score ==> (better(a, b) <==> text_less(a.id, b.id)),
{
    law_singles_are_ranked_as_numbers(a.score, b.score);
    law_singles_are_ranked_as_numbers(b.score, a.score);
}

/// In a list of the best results no score is higher than one before it, and none that was
/// left out is higher than one in the list.
pub proof fn law_best_results_have_the_highest_scores(out: Seq<Ranked>, pool: Set<Ranked>, k: nat)
    requires
        best_of(out, pool, k),
        forall|r: Ranked| #[trigger] pool.contains(r) ==> single_finite(r.score),
    ensures
        forall|i: int| 0 <= i < out.len() ==> pool.contains(#[trigger] out[i]),
        forall|i: int, j: int|
            0 <= i < j < out.len() ==> single_value((#[trigger] out[i]).score) >= single_value(
                (#[trigger] out[j]).score,
            ),
        forall|i: int, r: Ranked|
            0 <= i < out.len() && #[trigger] pool.contains(r) && !out.contains(r)
                ==> single_value((#[trigger] out[i]).score) >= single_value(r.score),
        out.len() <= k,
        out.len() < k ==> forall|r: Ranked| #[trigger] pool.contains(r) ==> out.contains(r),
{
    assert forall|i: int, j: int| 0 <= i < j < out.len() implies single_value(
        (#[trigger] out[i]).score,
    ) >= single_value((#[trigger] out[j]).score) by {
        law_higher_scores_come_first(out[i], out[j]);
    }
    assert forall|i: int, r: Ranked|
        0 <= i < out.len() && #[trigger] pool.contains(r) && !out.contains(r) implies single_value(
        (#[trigger] out[i]).score,
    ) >= single_value(r.score) by {
        let last = out[k - 1];
        law_higher_scores_come_first(last, r);
        if i < k - 1 {
            assert(single_value(out[i].score) >= single_value(last.score));
        }
    }
}

} // verus!
