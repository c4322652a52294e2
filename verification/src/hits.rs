//! Putting the results of several searches together.
use crate::collection::{ranks, views, HitView, SearchHit};
use crate::hnsw::model::at_most;
use crate::ranking::{best_of, better, lemma_better_total, lemma_better_transitive, Ranked};
use crate::ranking::is_better;
use crate::sort::{arranged, sort, Sortable};
use crate::text::same_text;
use vstd::prelude::*;

verus! {

impl Sortable for SearchHit {
    open spec fn at_most(a: HitView, b: HitView) -> bool {
        !better(b.rank(), a.rank())
    }

    proof fn lemma_total(a: HitView, b: HitView) {
        lemma_better_total(a.rank(), b.rank());
    }

    proof fn lemma_transitive(a: HitView, b: HitView, c: HitView) {
        lemma_better_total(a.rank(), b.rank());
        lemma_better_total(b.rank(), c.rank());
        lemma_better_total(a.rank(), c.rank());
        if a.rank() != b.rank() && b.rank() != c.rank() {
            lemma_better_transitive(a.rank(), b.rank(), c.rank());
        }
    }

    fn is_at_most(&self, other: &SearchHit) -> (r: bool) {
        !is_better(other.score, other.id.as_str(), self.score, self.id.as_str())
    }
}

/// Results without those that have the ID of the one before them.
pub open spec fn without_repeats(hits: Seq<SearchHit>) -> Seq<SearchHit>
    decreases hits.len(),
{
    if hits.len() == 0 {
        seq![]
    } else {
        let kept = without_repeats(hits.drop_last());
        if kept.len() > 0 && kept.last().id@ == hits.last().id@ {
            kept
        } else {
            kept.push(hits.last())
        }
    }
}

/// `merged` are the first `k` of the results in order, each ID that follows
/// itself counted once. Results of one rank may stand in either order.
pub open spec fn merge_of(hits: Seq<SearchHit>, k: usize, merged: Seq<SearchHit>) -> bool {
    exists|sorted: Seq<SearchHit>| #[trigger]
        arranged(sorted, true) && sorted.to_multiset() == hits.to_multiset() && merged == at_most(
            without_repeats(sorted),
            k,
        )
}

/// Orders results, best first, and keeps the first `k`.
pub(crate) fn merge_hits(hits: Vec<SearchHit>, k: usize) -> (merged: Vec<SearchHit>)
    ensures
        merge_of(hits@, k, merged@),
{
    let ghost given = hits@;
    // Worst first, so that the best is taken from the end.
    let mut rest = sort(hits, false);
    let ghost reversed = rest@;
    let ghost sorted = reversed.reverse();
    proof {
        lemma_reversed_arranged(reversed);
        vstd::seq_lib::to_multiset_len(reversed);
        reversed.lemma_reverse_to_multiset();
        assert(sorted.subrange(0, 0) =~= Seq::empty());
    }
    let mut merged: Vec<SearchHit> = Vec::new();
    let ghost mut taken: int = 0;
    assert(merged@ =~= Seq::empty());
    assert(rest@ =~= reversed.subrange(0, reversed.len() - taken));
    while rest.len() > 0
        invariant
            0 <= taken <= reversed.len(),
            sorted == reversed.reverse(),
            rest@ == reversed.subrange(0, reversed.len() - taken),
            merged@ == without_repeats(sorted.subrange(0, taken)),
        decreases rest.len(),
    {
        match rest.pop() {
            None => {},
            Some(hit) => {
                let repeats: bool = merged.len() > 0 && same_text(
                    merged[merged.len() - 1].id.as_str(),
                    hit.id.as_str(),
                );
                proof {
                    let next = sorted.subrange(0, taken + 1);
                    assert(next.drop_last() =~= sorted.subrange(0, taken));
                    assert(next.last() == hit);
                    assert(rest@ =~= reversed.subrange(0, reversed.len() - (taken + 1)));
                    taken = taken + 1;
                }
                if !repeats {
                    merged.push(hit);
                }
            },
        }
    }
    proof {
        assert(sorted.subrange(0, taken) =~= sorted);
    }
    let ghost all = merged@;
    merged.truncate(k);
    proof {
        assert(merged@ =~= at_most(all, k));
        assert(arranged(sorted, true));
    }
    merged
}

proof fn lemma_reversed_arranged(items: Seq<SearchHit>)
    requires
        arranged(items, false),
    ensures
        arranged(items.reverse(), true),
{
    let flipped = items.reverse();
    assert forall|i: int, j: int| 0 <= i < j < flipped.len() implies SearchHit::at_most(
        #[trigger] flipped[i]@,
        #[trigger] flipped[j]@,
    ) by {
        let a = items.len() - 1 - j;
        let b = items.len() - 1 - i;
        assert(flipped[j] == items[a] && flipped[i] == items[b]);
        assert(SearchHit::at_most(items[b]@, items[a]@));
    }
}

/// No two results have one ID.
pub open spec fn distinct_ids(hits: Seq<SearchHit>) -> bool {
    forall|i: int, j: int|
        0 <= i < j < hits.len() ==> (#[trigger] hits[i]).id@ != (#[trigger] hits[j]).id@
}

proof fn lemma_without_repeats_distinct(hits: Seq<SearchHit>)
    requires
        distinct_ids(hits),
    ensures
        without_repeats(hits) == hits,
    decreases hits.len(),
{
    if hits.len() > 0 {
        let rest = hits.drop_last();
        assert(distinct_ids(rest)) by {
            assert forall|i: int, j: int| 0 <= i < j < rest.len() implies (#[trigger] rest[i]).id@
                != (#[trigger] rest[j]).id@ by {
                assert(hits[i].id@ != hits[j].id@);
            }
        }
        lemma_without_repeats_distinct(rest);
        if rest.len() > 0 {
            assert(hits[rest.len() - 1].id@ != hits[hits.len() - 1].id@);
        }
        assert(hits =~= rest.push(hits.last()));
    } else {
        assert(hits =~= Seq::empty());
    }
}

/// The ranks of results as a set.
pub open spec fn rank_set(hits: Seq<SearchHit>) -> Set<Ranked> {
    Set::new(
        |r: Ranked| exists|i: int| 0 <= i < hits.len() && (#[trigger] hits[i])@.rank() == r,
    )
}

/// Results whose IDs are all different stay so in another order.
proof fn lemma_same_distinct(hits: Seq<SearchHit>, sorted: Seq<SearchHit>)
    requires
        distinct_ids(hits),
        sorted.to_multiset() == hits.to_multiset(),
    ensures
        sorted.len() == hits.len(),
        distinct_ids(sorted),
        forall|x: SearchHit| sorted.contains(x) <==> hits.contains(x),
{
    vstd::seq_lib::to_multiset_len(sorted);
    vstd::seq_lib::to_multiset_len(hits);
    assert forall|x: SearchHit| sorted.contains(x) <==> hits.contains(x) by {
        vstd::seq_lib::to_multiset_contains(sorted, x);
        vstd::seq_lib::to_multiset_contains(hits, x);
    }
    assert(hits.no_duplicates()) by {
        assert forall|i: int, j: int|
            0 <= i < hits.len() && 0 <= j < hits.len() && i != j implies hits[i] != hits[j] by {
            if i < j {
                assert(hits[i].id@ != hits[j].id@);
            } else {
                assert(hits[j].id@ != hits[i].id@);
            }
        }
    }
    hits.lemma_multiset_has_no_duplicates();
    sorted.lemma_multiset_has_no_duplicates_conv();
    assert(distinct_ids(sorted)) by {
        assert forall|i: int, j: int| 0 <= i < j < sorted.len() implies (#[trigger] sorted[i]).id@
            != (#[trigger] sorted[j]).id@ by {
            assert(sorted.contains(sorted[i]) && sorted.contains(sorted[j]));
            assert(hits.contains(sorted[i]) && hits.contains(sorted[j]));
            let x = choose|x: int| 0 <= x < hits.len() && hits[x] == sorted[i];
            let y = choose|y: int| 0 <= y < hits.len() && hits[y] == sorted[j];
            assert(sorted[i] != sorted[j]);
            if x < y {
                assert(hits[x].id@ != hits[y].id@);
            } else {
                assert(hits[y].id@ != hits[x].id@);
            }
        }
    }
}

proof fn lemma_without_repeats_contains(hits: Seq<SearchHit>, i: int)
    requires
        0 <= i < without_repeats(hits).len(),
    ensures
        hits.contains(without_repeats(hits)[i]),
    decreases hits.len(),
{
    if hits.len() > 0 {
        let rest = hits.drop_last();
        let kept = without_repeats(rest);
        if i < kept.len() {
            lemma_without_repeats_contains(rest, i);
            let x = choose|x: int| 0 <= x < rest.len() && rest[x] == kept[i];
            assert(hits[x] == kept[i]);
        } else {
            assert(hits[hits.len() - 1] == without_repeats(hits)[i]);
        }
    }
}

/// Merging adds nothing and keeps at most `k` results.
pub proof fn lemma_merge_contains(hits: Seq<SearchHit>, k: usize, merged: Seq<SearchHit>)
    requires
        merge_of(hits, k, merged),
    ensures
        merged.len() <= k,
        forall|i: int| 0 <= i < merged.len() ==> hits.contains(#[trigger] merged[i]),
{
    let sorted = choose|sorted: Seq<SearchHit>| #[trigger]
        arranged(sorted, true) && sorted.to_multiset() == hits.to_multiset() && merged == at_most(
            without_repeats(sorted),
            k,
        );
    assert forall|i: int| 0 <= i < merged.len() implies hits.contains(#[trigger] merged[i]) by {
        lemma_without_repeats_contains(sorted, i);
        vstd::seq_lib::to_multiset_contains(sorted, merged[i]);
        vstd::seq_lib::to_multiset_contains(hits, merged[i]);
    }
}

/// Results of one ID have one score.
pub open spec fn one_rank_each(hits: Seq<SearchHit>) -> bool {
    forall|i: int, j: int|
        0 <= i < j < hits.len() && (#[trigger] hits[i]).id@ == (#[trigger] hits[j]).id@
            ==> hits[i]@.rank() == hits[j]@.rank()
}

/// Ordered results of which each ID that follows itself counts once: their ranks fall,
/// and every rank is still there.
proof fn lemma_without_repeats_falls(hits: Seq<SearchHit>)
    requires
        arranged(hits, true),
        one_rank_each(hits),
    ensures
        ({
            let kept = without_repeats(hits);
            &&& forall|i: int, j: int|
                0 <= i < j < kept.len() ==> better(
                    (#[trigger] kept[i])@.rank(),
                    (#[trigger] kept[j])@.rank(),
                )
            &&& hits.len() > 0 ==> kept.len() > 0 && kept.last()@.rank() == hits.last()@.rank()
            &&& forall|x: int|
                0 <= x < hits.len() ==> ranks(views(kept)).contains((#[trigger] hits[x])@.rank())
        }),
    decreases hits.len(),
{
    if hits.len() > 0 {
        let rest = hits.drop_last();
        let before = without_repeats(rest);
        let kept = without_repeats(hits);
        let last = hits.last();
        assert forall|i: int, j: int| 0 <= i < j < rest.len() implies SearchHit::at_most(
            #[trigger] rest[i]@,
            #[trigger] rest[j]@,
        ) by {
            assert(SearchHit::at_most(hits[i]@, hits[j]@));
        }
        assert forall|i: int, j: int|
            0 <= i < j < rest.len() && (#[trigger] rest[i]).id@ == (
            #[trigger] rest[j]).id@ implies rest[i]@.rank() == rest[j]@.rank() by {
            assert(hits[i].id@ == hits[j].id@);
        }
        lemma_without_repeats_falls(rest);
        if before.len() > 0 {
            lemma_without_repeats_contains(rest, before.len() - 1);
            let end = before.last();
            let x = choose|x: int| 0 <= x < rest.len() && rest[x] == end;
            assert(hits[x] == end);
            if end.id@ == last.id@ {
                assert(hits[x].id@ == hits[hits.len() - 1].id@);
                assert(kept == before);
                assert forall|y: int| 0 <= y < hits.len() implies ranks(views(kept)).contains(
                    (#[trigger] hits[y])@.rank(),
                ) by {
                    if y < rest.len() {
                        assert(rest[y] == hits[y]);
                    } else {
                        assert(ranks(views(kept))[kept.len() - 1] == hits[y]@.rank());
                    }
                }
            } else {
                assert(rest.len() > 0);
                assert(SearchHit::at_most(hits[rest.len() - 1]@, hits[hits.len() - 1]@));
                lemma_better_total(end@.rank(), last@.rank());
                assert forall|i: int, j: int| 0 <= i < j < kept.len() implies better(
                    (#[trigger] kept[i])@.rank(),
                    (#[trigger] kept[j])@.rank(),
                ) by {
                    if j == before.len() {
                        if i < before.len() - 1 {
                            assert(better(before[i]@.rank(), before[before.len() - 1]@.rank()));
                            lemma_better_transitive(
                                before[i]@.rank(),
                                end@.rank(),
                                last@.rank(),
                            );
                        }
                    } else {
                        assert(better(before[i]@.rank(), before[j]@.rank()));
                    }
                }
                lemma_pushed_ranks(before, last, hits);
            }
        } else {
            lemma_pushed_ranks(before, last, hits);
        }
    }
}

/// The ranks of results are among those of the kept ones and the last.
proof fn lemma_pushed_ranks(before: Seq<SearchHit>, last: SearchHit, hits: Seq<SearchHit>)
    requires
        hits.len() > 0,
        hits.last() == last,
        forall|x: int|
            0 <= x < hits.len() - 1 ==> ranks(views(before)).contains(
                (#[trigger] hits.drop_last()[x])@.rank(),
            ),
    ensures
        forall|x: int|
            0 <= x < hits.len() ==> ranks(views(before.push(last))).contains(
                (#[trigger] hits[x])@.rank(),
            ),
{
    let kept = before.push(last);
    assert forall|x: int| 0 <= x < hits.len() implies ranks(views(kept)).contains(
        (#[trigger] hits[x])@.rank(),
    ) by {
        if x < hits.len() - 1 {
            assert(hits.drop_last()[x] == hits[x]);
            let r = hits[x]@.rank();
            let y = choose|y: int| 0 <= y < ranks(views(before)).len() && ranks(views(before))[y] == r;
            assert(ranks(views(kept))[y] == r);
        } else {
            assert(ranks(views(kept))[before.len() as int] == last@.rank());
        }
    }
}

/// Merging results of which those of one ID have one score gives the `k` best of them,
/// each as it was and none twice.
pub proof fn law_merge_keeps_the_best(hits: Seq<SearchHit>, k: usize, merged: Seq<SearchHit>)
    requires
        k > 0,
        one_rank_each(hits),
        merge_of(hits, k, merged),
    ensures
        best_of(ranks(views(merged)), rank_set(hits), k as nat),
        forall|i: int| 0 <= i < merged.len() ==> hits.contains(#[trigger] merged[i]),
{
    let sorted = choose|sorted: Seq<SearchHit>| #[trigger]
        arranged(sorted, true) && sorted.to_multiset() == hits.to_multiset() && merged == at_most(
            without_repeats(sorted),
            k,
        );
    let kept = without_repeats(sorted);
    assert forall|x: SearchHit| sorted.contains(x) <==> hits.contains(x) by {
        vstd::seq_lib::to_multiset_contains(sorted, x);
        vstd::seq_lib::to_multiset_contains(hits, x);
    }
    assert forall|i: int, j: int|
        0 <= i < j < sorted.len() && (#[trigger] sorted[i]).id@ == (
        #[trigger] sorted[j]).id@ implies sorted[i]@.rank() == sorted[j]@.rank() by {
        assert(sorted.contains(sorted[i]) && sorted.contains(sorted[j]));
        let x = choose|x: int| 0 <= x < hits.len() && hits[x] == sorted[i];
        let y = choose|y: int| 0 <= y < hits.len() && hits[y] == sorted[j];
        if x < y {
            assert(hits[x].id@ == hits[y].id@);
        } else if y < x {
            assert(hits[y].id@ == hits[x].id@);
        }
    }
    lemma_without_repeats_falls(sorted);
    lemma_merge_contains(hits, k, merged);
    let out = ranks(views(merged));
    assert forall|i: int, j: int| 0 <= i < j < out.len() implies better(
        #[trigger] out[i],
        #[trigger] out[j],
    ) by {
        assert(merged[i] == kept[i] && merged[j] == kept[j]);
    }
    assert forall|i: int| 0 <= i < out.len() implies rank_set(hits).contains(#[trigger] out[i]) by {
        assert(hits.contains(merged[i]));
        let x = choose|x: int| 0 <= x < hits.len() && hits[x] == merged[i];
        assert(hits[x]@.rank() == out[i]);
    }
    assert forall|r: Ranked| #[trigger] rank_set(hits).contains(r) implies out.contains(r) || (
    out.len() == k && k > 0 && better(out[k - 1], r)) by {
        let x = choose|x: int| 0 <= x < hits.len() && (#[trigger] hits[x])@.rank() == r;
        assert(hits.contains(hits[x]));
        let y = choose|y: int| 0 <= y < sorted.len() && sorted[y] == hits[x];
        assert(sorted[y]@.rank() == r);
        let all = ranks(views(kept));
        let z = choose|z: int| 0 <= z < all.len() && all[z] == r;
        assert(kept[z]@.rank() == r);
        if z < merged.len() {
            assert(merged[z] == kept[z]);
            assert(out[z] == r);
        } else {
            assert(merged.len() == k);
            assert(merged[k - 1] == kept[k - 1]);
            assert(better(kept[k - 1]@.rank(), kept[z]@.rank()));
        }
    }
}

/// The IDs of results.
pub open spec fn hit_ids(hits: Seq<SearchHit>) -> Seq<Seq<char>> {
    Seq::new(hits.len(), |i: int| hits[i].id@)
}

proof fn lemma_without_repeats_ids(hits: Seq<SearchHit>, i: int)
    requires
        0 <= i < hits.len(),
    ensures
        hit_ids(without_repeats(hits)).contains(hits[i].id@),
    decreases hits.len(),
{
    let rest = hits.drop_last();
    let kept = without_repeats(rest);
    let all = without_repeats(hits);
    let id = hits[i].id@;
    if i < rest.len() {
        lemma_without_repeats_ids(rest, i);
        assert(rest[i] == hits[i]);
        let j = choose|j: int| 0 <= j < kept.len() && #[trigger] hit_ids(kept)[j] == id;
        assert(all[j] == kept[j]);
        assert(hit_ids(all)[j] == id);
    } else {
        assert(hit_ids(all)[all.len() - 1] == id);
    }
}

/// Merging loses no ID for want of room unless `k` results are left, and it is left
/// with at least as many results as there are IDs, up to `k`.
pub proof fn lemma_merge_keeps_ids(
    hits: Seq<SearchHit>,
    k: usize,
    merged: Seq<SearchHit>,
    names: Seq<Seq<char>>,
)
    requires
        merge_of(hits, k, merged),
        names.no_duplicates(),
        forall|i: int| 0 <= i < names.len() ==> hit_ids(hits).contains(#[trigger] names[i]),
    ensures
        merged.len() >= k || merged.len() >= names.len(),
        merged.len() < k ==> forall|i: int|
            0 <= i < hits.len() ==> hit_ids(merged).contains((#[trigger] hits[i]).id@),
{
    let sorted = choose|sorted: Seq<SearchHit>| #[trigger]
        arranged(sorted, true) && sorted.to_multiset() == hits.to_multiset() && merged == at_most(
            without_repeats(sorted),
            k,
        );
    let kept = without_repeats(sorted);
    assert forall|i: int| 0 <= i < hits.len() implies hit_ids(kept).contains(
        (#[trigger] hits[i]).id@,
    ) by {
        assert(hits.contains(hits[i]));
        vstd::seq_lib::to_multiset_contains(sorted, hits[i]);
        vstd::seq_lib::to_multiset_contains(hits, hits[i]);
        let j = choose|j: int| 0 <= j < sorted.len() && sorted[j] == hits[i];
        lemma_without_repeats_ids(sorted, j);
    }
    assert(names.to_set().subset_of(hit_ids(kept).to_set())) by {
        assert forall|name: Seq<char>| names.to_set().contains(name) implies hit_ids(
            kept,
        ).to_set().contains(name) by {
            let i = choose|i: int| 0 <= i < names.len() && names[i] == name;
            assert(hit_ids(hits).contains(names[i]));
            let j = choose|j: int| 0 <= j < hits.len() && hit_ids(hits)[j] == name;
            assert(hits[j].id@ == name);
            assert(hit_ids(kept).contains(hits[j].id@));
        }
    }
    vstd::seq_lib::seq_to_set_is_finite(hit_ids(kept));
    vstd::set_lib::lemma_len_subset(names.to_set(), hit_ids(kept).to_set());
    names.unique_seq_to_set();
    hit_ids(kept).lemma_cardinality_of_set();
    if merged.len() < k {
        assert(merged =~= kept);
    }
}

/// `top` are the first `k` of the results in order. Results of one rank may stand
/// in either order.
pub open spec fn top_of(hits: Seq<SearchHit>, k: usize, top: Seq<SearchHit>) -> bool {
    exists|sorted: Seq<SearchHit>| #[trigger]
        arranged(sorted, true) && sorted.to_multiset() == hits.to_multiset() && top == at_most(
            sorted,
            k,
        )
}

/// Orders results, best first, and keeps the first `k`.
pub(crate) fn top_hits(hits: Vec<SearchHit>, k: usize) -> (top: Vec<SearchHit>)
    ensures
        top_of(hits@, k, top@),
{
    let mut top = sort(hits, true);
    let ghost all = top@;
    top.truncate(k);
    proof {
        assert(top@ =~= at_most(all, k));
        assert(arranged(all, true));
    }
    top
}

/// Of results whose IDs are all different, the first `k` in order are the `k` best,
/// each as it was.
pub proof fn law_top_keeps_the_best(hits: Seq<SearchHit>, k: usize, top: Seq<SearchHit>)
    requires
        k > 0,
        distinct_ids(hits),
        top_of(hits, k, top),
    ensures
        best_of(ranks(views(top)), rank_set(hits), k as nat),
        forall|i: int| 0 <= i < top.len() ==> hits.contains(#[trigger] top[i]),
{
    let sorted = choose|sorted: Seq<SearchHit>| #[trigger]
        arranged(sorted, true) && sorted.to_multiset() == hits.to_multiset() && top == at_most(
            sorted,
            k,
        );
    lemma_same_distinct(hits, sorted);
    lemma_without_repeats_distinct(sorted);
    assert(merge_of(hits, k, top));
    law_merge_keeps_the_best(hits, k, top);
}

} // verus!
