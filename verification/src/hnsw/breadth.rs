//! What a search finds of the nodes that it sees, whatever its breadth.
use crate::bits::single_rank;
use crate::hnsw::graph_hits;
use crate::hnsw::laws::{
    lemma_by_rank_descends, lemma_considered_sound, lemma_descended_in_range, node_ranks,
    walk_sound,
};
use crate::hnsw::model::{
    considered, considered_all, descended, expanded, item_better, item_nodes, item_of, item_placed,
    layer_search, lead, lemma_by_rank_members, lemma_lead, lemma_links_in_range, links, node_rank, node_valid, searched,
    valid, walk_from, walk_over, walked, GraphView, Item, Walk,
};
use crate::hnsw::small::{complete, lemma_pigeons, linked_to};
use crate::metric::Kernel;
use crate::ranking::{better, descending};
use vstd::prelude::*;

verus! {

/// Items stand best first.
pub open spec fn in_item_order(items: Seq<Item>) -> bool {
    forall|i: int, j: int|
        0 <= i < j < items.len() ==> item_better(#[trigger] items[i], #[trigger] items[j])
}

/// The results of a walk are the `ef` best of the nodes that it has seen.
pub open spec fn best_seen<K: Kernel>(
    kernel: K,
    g: GraphView,
    query: Seq<u32>,
    ef: usize,
    walk: Walk,
) -> bool {
    &&& walk_sound(kernel, g, query, walk)
    &&& walk.results.len() <= ef
    &&& in_item_order(walk.results)
    &&& forall|i: int|
        0 <= i < walk.results.len() ==> (#[trigger] walk.results[i]) == item_of(
            kernel,
            g,
            query,
            walk.results[i].index as int,
        )
    &&& forall|x: int|
        0 <= x < g.nodes.len() && #[trigger] walk.visited[x] ==> item_nodes(
            walk.results,
        ).contains(x as usize) || (walk.results.len() == ef && ef > 0 && item_better(
            walk.results.last(),
            item_of(kernel, g, query, x),
        ))
}

pub(crate) proof fn lemma_items_compare(a: Item, b: Item)
    requires
        a.index != b.index,
    ensures
        item_better(a, b) || item_better(b, a),
{
}

pub(crate) proof fn lemma_placed_in_order(items: Seq<Item>, item: Item)
    requires
        in_item_order(items),
        forall|i: int| 0 <= i < items.len() ==> (#[trigger] items[i]).index != item.index,
    ensures
        in_item_order(item_placed(items, item)),
        item_placed(items, item).len() == items.len() + 1,
        items.len() > 0 && item_better(item, items.last()) ==> item_placed(items, item).last()
            == items.last(),
        forall|i: int|
            0 <= i < item_placed(items, item).len() ==> (#[trigger] item_placed(items, item)[i])
                == item || items.contains(item_placed(items, item)[i]),
        forall|x: Item| #[trigger]
            items.contains(x) ==> item_placed(items, item).contains(x),
        item_placed(items, item).contains(item),
{
    let ahead = |other: Item| item_better(other, item);
    lemma_lead(items, ahead);
    let at = lead(items, ahead);
    let after = item_placed(items, item);
    assert(after[at] == item);
    if at < items.len() {
        lemma_items_compare(items[at], item);
    }
    if items.len() > 0 && item_better(item, items.last()) {
        if at == items.len() {
            assert(ahead(items[items.len() - 1]));
        }
    }
    assert forall|i: int, j: int| 0 <= i < j < after.len() implies item_better(
        #[trigger] after[i],
        #[trigger] after[j],
    ) by {
        if j < at {
            assert(after[i] == items[i] && after[j] == items[j]);
        } else if j == at {
            assert(after[i] == items[i]);
            assert(ahead(items[i]));
        } else {
            assert(after[j] == items[j - 1]);
            if i < at {
                assert(after[i] == items[i]);
                assert(item_better(items[i], items[j - 1]));
            } else if i == at {
                if j - 1 > at {
                    assert(item_better(items[at], items[j - 1]));
                }
            } else {
                assert(after[i] == items[i - 1]);
                assert(item_better(items[i - 1], items[j - 1]));
            }
        }
    }
    assert forall|i: int| 0 <= i < after.len() implies (#[trigger] after[i]) == item
        || items.contains(after[i]) by {
        if i < at {
            assert(after[i] == items[i]);
        } else if i > at {
            assert(after[i] == items[i - 1]);
        }
    }
    assert forall|x: Item| #[trigger] items.contains(x) implies after.contains(x) by {
        let i = choose|i: int| 0 <= i < items.len() && items[i] == x;
        if i < at {
            assert(after[i] == x);
        } else {
            assert(after[i + 1] == x);
        }
    }
}

pub(crate) proof fn lemma_considered_best<K: Kernel>(
    kernel: K,
    g: GraphView,
    query: Seq<u32>,
    ef: usize,
    walk: Walk,
    node: usize,
)
    requires
        g.nodes.len() <= usize::MAX,
        ef >= 1,
        best_seen(kernel, g, query, ef, walk),
        node < g.nodes.len(),
    ensures
        ({
            let after = considered(kernel, g, query, ef, walk, node);
            &&& best_seen(kernel, g, query, ef, after)
            &&& after.visited[node as int]
            &&& forall|x: int|
                0 <= x < g.nodes.len() && #[trigger] walk.visited[x] ==> after.visited[x]
        }),
{
    lemma_considered_sound(kernel, g, query, ef, walk, node);
    let after = considered(kernel, g, query, ef, walk, node);
    if !walk.visited[node as int] {
        let item = item_of(kernel, g, query, node as int);
        let old = walk.results;
        let new = after.results;
        assert(item.index == node);
        assert forall|i: int| 0 <= i < old.len() implies (#[trigger] old[i]).index
            != item.index by {
            assert(walk.visited[old[i].index as int]);
        }
        lemma_placed_in_order(old, item);
        let longer = item_placed(old, item);
        if old.len() < ef || item_better(item, old.last()) {
            assert forall|i: int, j: int| 0 <= i < j < new.len() implies item_better(
                #[trigger] new[i],
                #[trigger] new[j],
            ) by {
                assert(new[i] == longer[i] && new[j] == longer[j]);
            }
            assert forall|i: int| 0 <= i < new.len() implies (#[trigger] new[i]) == item_of(
                kernel,
                g,
                query,
                new[i].index as int,
            ) by {
                assert(new[i] == longer[i]);
                if longer[i] != item {
                    let x = choose|x: int| 0 <= x < old.len() && old[x] == longer[i];
                    assert(old[x] == item_of(kernel, g, query, old[x].index as int));
                }
            }
            assert forall|x: int| 0 <= x < g.nodes.len() && #[trigger] after.visited[x] implies
                item_nodes(new).contains(x as usize) || (new.len() == ef && ef > 0 && item_better(
                new.last(),
                item_of(kernel, g, query, x),
            )) by {
                let here = item_of(kernel, g, query, x);
                if x == node || item_nodes(old).contains(x as usize) {
                    if x != node {
                        let i = choose|i: int| 0 <= i < old.len() && item_nodes(old)[i] == x as usize;
                        assert(old[i] == here);
                        assert(old.contains(here));
                    }
                    assert(longer.contains(here));
                    let j = choose|j: int| 0 <= j < longer.len() && longer[j] == here;
                    if j < new.len() {
                        assert(new[j] == here);
                        assert(item_nodes(new)[j] == x as usize);
                    } else {
                        assert(new.len() == ef);
                        assert(new.last() == longer[ef - 1]);
                        assert(item_better(longer[ef - 1], longer[j]));
                    }
                } else {
                    assert(walk.visited[x]);
                    assert(old.len() == ef);
                    assert(longer.last() == old.last());
                    assert(new.last() == longer[ef - 1]);
                    assert(item_better(longer[ef - 1], longer[ef as int]));
                }
            }
        } else {
            lemma_items_compare(old.last(), item);
        }
    }
}

proof fn lemma_considered_all_best<K: Kernel>(
    kernel: K,
    g: GraphView,
    query: Seq<u32>,
    ef: usize,
    walk: Walk,
    nodes: Seq<usize>,
)
    requires
        g.nodes.len() <= usize::MAX,
        ef >= 1,
        best_seen(kernel, g, query, ef, walk),
        forall|i: int| 0 <= i < nodes.len() ==> (#[trigger] nodes[i]) < g.nodes.len(),
    ensures
        ({
            let after = considered_all(kernel, g, query, ef, walk, nodes);
            &&& best_seen(kernel, g, query, ef, after)
            &&& forall|i: int| 0 <= i < nodes.len() ==> after.visited[#[trigger] nodes[i] as int]
            &&& forall|x: int|
                0 <= x < g.nodes.len() && #[trigger] walk.visited[x] ==> after.visited[x]
        }),
    decreases nodes.len(),
{
    if nodes.len() > 0 {
        let rest = nodes.drop_last();
        assert forall|i: int| 0 <= i < rest.len() implies (#[trigger] rest[i]) < g.nodes.len() by {
            assert(nodes[i] < g.nodes.len());
        }
        lemma_considered_all_best(kernel, g, query, ef, walk, rest);
        let before = considered_all(kernel, g, query, ef, walk, rest);
        assert(nodes[nodes.len() - 1] < g.nodes.len());
        lemma_considered_best(kernel, g, query, ef, before, nodes.last());
        let after = considered_all(kernel, g, query, ef, walk, nodes);
        assert forall|i: int| 0 <= i < nodes.len() implies after.visited[
            #[trigger] nodes[i] as int] by {
            assert(nodes[i] < g.nodes.len());
            if i < rest.len() {
                assert(before.visited[rest[i] as int]);
            }
        }
        assert forall|x: int| 0 <= x < g.nodes.len() && #[trigger] walk.visited[x] implies
            after.visited[x] by {
            assert(before.visited[x]);
        }
    }
}

proof fn lemma_walked_best<K: Kernel>(
    kernel: K,
    g: GraphView,
    query: Seq<u32>,
    ef: usize,
    layer: int,
    walk: Walk,
    steps: nat,
)
    requires
        valid(g),
        g.nodes.len() <= usize::MAX,
        ef >= 1,
        best_seen(kernel, g, query, ef, walk),
    ensures
        ({
            let after = walked(kernel, g, query, ef, layer, walk, steps);
            &&& best_seen(kernel, g, query, ef, after)
            &&& forall|x: int|
                0 <= x < g.nodes.len() && #[trigger] walk.visited[x] ==> after.visited[x]
        }),
    decreases steps,
{
    if steps > 0 && !walk_over(ef, walk) {
        let rest = Walk { frontier: walk.frontier.drop_first(), ..walk };
        let node = walk.frontier[0].index;
        assert forall|i: int| 0 <= i < rest.frontier.len() implies (
        #[trigger] rest.frontier[i]).index < g.nodes.len() by {
            assert(rest.frontier[i] == walk.frontier[i + 1]);
        }
        assert(best_seen(kernel, g, query, ef, rest)) by {
            assert forall|x: int| 0 <= x < g.nodes.len() && #[trigger] rest.visited[x] implies
                item_nodes(rest.results).contains(x as usize) || (rest.results.len() == ef && ef > 0
                && item_better(rest.results.last(), item_of(kernel, g, query, x))) by {
                assert(walk.visited[x]);
            }
        }
        assert(walk.frontier[0].index < g.nodes.len());
        assert(node_valid(g, node as int));
        lemma_links_in_range(g, node as int, layer);
        lemma_considered_all_best(kernel, g, query, ef, rest, links(g, node as int, layer));
        let next = expanded(kernel, g, query, ef, layer, walk);
        lemma_walked_best(kernel, g, query, ef, layer, next, (steps - 1) as nat);
        let after = walked(kernel, g, query, ef, layer, walk, steps);
        assert forall|x: int| 0 <= x < g.nodes.len() && #[trigger] walk.visited[x] implies
            after.visited[x] by {
            assert(rest.visited[x]);
            assert(next.visited[x]);
        }
    }
}

/// Different numbers below a bound that are all of them are as many as the bound.
proof fn lemma_all_below(s: Seq<usize>, bound: nat)
    requires
        s.no_duplicates(),
        bound <= usize::MAX,
        forall|x: int| 0 <= x < bound ==> s.contains(#[trigger] (x as usize)),
    ensures
        s.len() >= bound,
    decreases bound,
{
    let wanted = Seq::new(bound, |x: int| x as usize);
    assert(wanted.no_duplicates());
    s.unique_seq_to_set();
    wanted.unique_seq_to_set();
    assert(wanted.to_set().subset_of(s.to_set())) by {
        assert forall|v: usize| wanted.to_set().contains(v) implies s.to_set().contains(v) by {
            let x = choose|x: int| 0 <= x < wanted.len() && wanted[x] == v;
            assert(s.contains(x as usize));
        }
    }
    vstd::set_lib::lemma_len_subset(wanted.to_set(), s.to_set());
}

/// A search through nodes that all link to each other finds as many as its breadth, or
/// all of them, and none that it leaves out scores above one that it finds.
proof fn lemma_complete_layer<K: Kernel>(
    kernel: K,
    g: GraphView,
    query: Seq<u32>,
    entry: int,
    ef: usize,
)
    requires
        valid(g),
        complete(g),
        0 <= entry < g.nodes.len() <= usize::MAX,
        ef >= 1,
    ensures
        ({
            let found = layer_search(kernel, g, query, entry, ef, 0);
            &&& found.len() <= ef && found.len() <= g.nodes.len()
            &&& found.len() == ef || found.len() == g.nodes.len()
            &&& descending(node_ranks(kernel, g, query, found))
            &&& forall|i: int| 0 <= i < found.len() ==> (#[trigger] found[i]) < g.nodes.len()
            &&& forall|x: int, i: int|
                #![trigger node_rank(kernel, g, query, x), found[i]]
                0 <= x < g.nodes.len() && 0 <= i < found.len() && !found.contains(x as usize)
                    ==> single_rank(node_rank(kernel, g, query, x).score) <= single_rank(
                    node_rank(kernel, g, query, found[i] as int).score,
                )
        }),
{
    let start = walk_from(kernel, g, query, entry);
    let item = item_of(kernel, g, query, entry);
    assert(item.index == entry);
    assert(best_seen(kernel, g, query, ef, start)) by {
        assert(item_nodes(start.results)[0] == entry as usize);
    }
    assert(!walk_over(ef, start)) by {
        assert(start.results.last() == start.frontier[0]);
    }
    let first = Walk { frontier: start.frontier.drop_first(), ..start };
    assert(best_seen(kernel, g, query, ef, first)) by {
        assert(item_nodes(first.results)[0] == entry as usize);
    }
    let around = links(g, entry, 0);
    assert(node_valid(g, entry));
    lemma_links_in_range(g, entry, 0);
    lemma_considered_all_best(kernel, g, query, ef, first, around);
    let next = expanded(kernel, g, query, ef, 0, start);
    let steps = (g.nodes.len() - 1) as nat;
    lemma_walked_best(kernel, g, query, ef, 0, next, steps);
    let last = walked(kernel, g, query, ef, 0, start, g.nodes.len());
    assert(last == walked(kernel, g, query, ef, 0, next, steps));
    assert forall|x: int| 0 <= x < g.nodes.len() implies #[trigger] last.visited[x] by {
        if x == entry {
            assert(first.visited[x]);
        } else {
            assert(node_valid(g, x));
            assert(linked_to(g, entry, 0, x));
            let i = choose|i: int| 0 <= i < around.len() && around[i] == x as usize;
            assert(next.visited[around[i] as int]);
        }
        assert(next.visited[x]);
    }
    let results = last.results;
    let nodes = item_nodes(results);
    assert forall|i: int| 0 <= i < nodes.len() implies (#[trigger] nodes[i]) < g.nodes.len() by {
        assert(results[i].index < g.nodes.len());
    }
    assert forall|i: int, j: int| 0 <= i < j < nodes.len() implies (#[trigger] nodes[i]) != (
    #[trigger] nodes[j]) by {
        assert(results[i].index != results[j].index);
    }
    lemma_by_rank_descends(kernel, g, query, nodes);
    lemma_by_rank_members(kernel, g, query, nodes);
    let found = layer_search(kernel, g, query, entry, ef, 0);
    assert(nodes.no_duplicates());
    lemma_pigeons(nodes, g.nodes.len());
    if results.len() < ef {
        assert forall|x: int| 0 <= x < g.nodes.len() implies nodes.contains(
            #[trigger] (x as usize),
        ) by {
            assert(last.visited[x]);
        }
        lemma_all_below(nodes, g.nodes.len());
    }
    assert forall|i: int| 0 <= i < found.len() implies (#[trigger] found[i]) < g.nodes.len()
        && nodes.contains(found[i]) by {
        assert(found.contains(found[i]));
        assert(nodes.contains(found[i]));
        let x = choose|x: int| 0 <= x < nodes.len() && nodes[x] == found[i];
    }
    assert forall|x: int, i: int|
        #![trigger node_rank(kernel, g, query, x), found[i]]
        0 <= x < g.nodes.len() && 0 <= i < found.len() && !found.contains(
            x as usize,
        ) implies single_rank(node_rank(kernel, g, query, x).score) <= single_rank(
        node_rank(kernel, g, query, found[i] as int).score,
    ) by {
        assert(last.visited[x]);
        assert(!nodes.contains(x as usize));
        let worst = results.last();
        assert(item_better(worst, item_of(kernel, g, query, x)));
        assert(nodes.contains(found[i]));
        let y = choose|y: int| 0 <= y < nodes.len() && nodes[y] == found[i];
        assert(results[y] == item_of(kernel, g, query, results[y].index as int));
        if y < results.len() - 1 {
            assert(item_better(results[y], results[results.len() - 1]));
        }
    }
}

/// A graph in which every node links to every other gives a search as many results as it
/// asks for, or all points, whatever its breadth; and no point that is left out scores
/// above one that is given.
pub proof fn law_complete_graph_gives_the_best_scores<K: Kernel>(
    kernel: K,
    g: GraphView,
    query: Seq<u32>,
    k: usize,
    ef_search: usize,
)
    requires
        valid(g),
        complete(g),
        g.nodes.len() <= usize::MAX,
        1 <= k <= ef_search,
    ensures
        ({
            let hits = graph_hits(kernel, g, query, k, ef_search);
            &&& hits.len() == if k <= g.nodes.len() {
                k as nat
            } else {
                g.nodes.len()
            }
            &&& forall|x: int, i: int|
                #![trigger node_rank(kernel, g, query, x), hits[i]]
                0 <= x < g.nodes.len() && 0 <= i < hits.len() && !hits.contains(
                    node_rank(kernel, g, query, x),
                ) ==> single_rank(node_rank(kernel, g, query, x).score) <= single_rank(
                    hits[i].score,
                )
        }),
{
    let hits = graph_hits(kernel, g, query, k, ef_search);
    match g.entry_point {
        None => {},
        Some(top) => {
            let start = descended(kernel, g, query, top as int, g.max_level as int, 0);
            lemma_descended_in_range(kernel, g, query, top as int, g.max_level as int, 0);
            lemma_complete_layer(kernel, g, query, start, ef_search);
            let found = searched(kernel, g, query, ef_search);
            let ranks = node_ranks(kernel, g, query, found);
            assert forall|x: int, i: int|
                #![trigger node_rank(kernel, g, query, x), hits[i]]
                0 <= x < g.nodes.len() && 0 <= i < hits.len() && !hits.contains(
                    node_rank(kernel, g, query, x),
                ) implies single_rank(node_rank(kernel, g, query, x).score) <= single_rank(
                hits[i].score,
            ) by {
                assert(hits[i] == node_rank(kernel, g, query, found[i] as int));
                if found.contains(x as usize) {
                    let j = choose|j: int| 0 <= j < found.len() && found[j] == x as usize;
                    assert(ranks[j] == node_rank(kernel, g, query, x));
                    if j < hits.len() {
                        assert(hits[j] == node_rank(kernel, g, query, x));
                    }
                    assert(better(ranks[i], ranks[j]));
                }
            }
        },
    }
}

} // verus!
