//! How a new node is linked to the nodes that it was put beside.
use crate::hnsw::growth::{
    growing, joins, lemma_connected, lemma_connected_all, lemma_linked, same_shape,
};
use crate::hnsw::laws::{lemma_by_rank_descends, node_ranks};
use crate::hnsw::model::{
    by_rank, connected, connected_all, kept, layered, lemma_links_in_range, linked, links,
    node_rank, node_valid, valid, GraphView,
};
use crate::hnsw::small::distinct_links;
use crate::hnsw::walk::law_nodes_keep_the_closest;
use crate::metric::Kernel;
use crate::ranking::{better, lemma_better_total};
use vstd::prelude::*;

verus! {

/// A node links to another in a layer, or has all the links that it may have, each of them
/// to a closer node.
pub open spec fn links_or_is_full<K: Kernel>(
    kernel: K,
    g: GraphView,
    node: int,
    other: int,
    layer: int,
) -> bool {
    ||| links(g, node, layer).contains(other as usize)
    ||| links(g, node, layer).len() == g.config.m && forall|j: int|
        0 <= j < links(g, node, layer).len() ==> better(
            node_rank(kernel, g, g.nodes[node].vector, #[trigger] links(g, node, layer)[j] as int),
            node_rank(kernel, g, g.nodes[node].vector, other),
        )
}

proof fn lemma_kept_distinct<K: Kernel>(kernel: K, g: GraphView, node: int, list: Seq<usize>)
    requires
        valid(g),
        list.no_duplicates(),
        forall|i: int| 0 <= i < list.len() ==> (#[trigger] list[i]) < g.nodes.len(),
    ensures
        kept(kernel, g, node, list).no_duplicates(),
{
    let near = g.nodes[node].vector;
    lemma_by_rank_descends(kernel, g, near, list);
    let order = by_rank(kernel, g, near, list);
    let left = kept(kernel, g, node, list);
    if list.len() > g.config.m {
        let ranks = node_ranks(kernel, g, near, order);
        assert forall|i: int, j: int|
            0 <= i < left.len() && 0 <= j < left.len() && i != j implies left[i] != left[j] by {
            let (low, high) = if i < j {
                (i, j)
            } else {
                (j, i)
            };
            assert(better(ranks[low], ranks[high]));
            lemma_better_total(ranks[low], ranks[high]);
            assert(left[low] == order[low] && left[high] == order[high]);
        }
    }
}

proof fn lemma_linked_one_way<K: Kernel>(
    kernel: K,
    g: GraphView,
    node: int,
    other: int,
    layer: int,
)
    requires
        valid(g),
        layered(g),
        g.nodes.len() <= usize::MAX,
        0 <= node < g.nodes.len(),
        0 <= other < g.nodes.len(),
        node != other,
        0 <= layer < g.nodes[node].neighbors.len(),
        layer < g.nodes[other].neighbors.len(),
        links(g, node, layer).no_duplicates(),
        !links(g, node, layer).contains(other as usize),
    ensures
        ({
            let after = linked(kernel, g, node, other, layer);
            &&& links_or_is_full(kernel, after, node, other, layer)
            &&& links(after, node, layer).no_duplicates()
            &&& links(g, node, layer).len() < g.config.m ==> links(after, node, layer) == links(
                g,
                node,
                layer,
            ).push(other as usize)
            &&& forall|i: int|
                0 <= i < g.nodes.len() && i != node ==> #[trigger] links(after, i, layer) == links(
                    g,
                    i,
                    layer,
                )
        }),
{
    let after = linked(kernel, g, node, other, layer);
    let old = links(g, node, layer);
    let list = old.push(other as usize);
    let left = kept(kernel, g, node, list);
    let near = g.nodes[node].vector;
    assert(node_valid(g, node));
    lemma_links_in_range(g, node, layer);
    lemma_linked(kernel, g, node, other, layer);
    assert forall|i: int| 0 <= i < list.len() implies (#[trigger] list[i]) < g.nodes.len() by {
        if i < old.len() {
            assert(list[i] == old[i]);
        }
    }
    assert(list.no_duplicates()) by {
        assert forall|i: int, j: int|
            0 <= i < list.len() && 0 <= j < list.len() && i != j implies list[i] != list[j] by {
            if i < old.len() && j < old.len() {
                assert(old[i] != old[j]);
            } else if i < old.len() {
                assert(old.contains(old[i]));
            } else {
                assert(old.contains(old[j]));
            }
        }
    }
    lemma_kept_distinct(kernel, g, node, list);
    assert(links(after, node, layer) == left);
    assert(list[old.len() as int] == other as usize);
    assert(list.contains(other as usize));
    law_nodes_keep_the_closest(kernel, g, node, list, other as usize, other as usize);
    if !left.contains(other as usize) {
        assert forall|j: int| 0 <= j < left.len() implies better(
            node_rank(kernel, after, near, #[trigger] left[j] as int),
            node_rank(kernel, after, near, other),
        ) by {
            law_nodes_keep_the_closest(kernel, g, node, list, left[j], other as usize);
            assert(left.contains(left[j]));
            assert(list.contains(left[j]));
            let x = choose|x: int| 0 <= x < list.len() && list[x] == left[j];
            lemma_same_rank(kernel, g, after, near, left[j] as int);
            lemma_same_rank(kernel, g, after, near, other);
        }
        assert(after.nodes[node].vector == near);
    }
}

proof fn lemma_same_rank<K: Kernel>(
    kernel: K,
    a: GraphView,
    b: GraphView,
    query: Seq<u32>,
    i: int,
)
    requires
        same_shape(b, a),
        0 <= i < a.nodes.len(),
    ensures
        node_rank(kernel, a, query, i) == node_rank(kernel, b, query, i),
{
    assert(b.nodes[i].id == a.nodes[i].id);
}

proof fn lemma_still_full<K: Kernel>(
    kernel: K,
    a: GraphView,
    b: GraphView,
    node: int,
    other: int,
    layer: int,
)
    requires
        valid(a),
        same_shape(b, a),
        0 <= node < a.nodes.len(),
        0 <= other < a.nodes.len(),
        links(b, node, layer) == links(a, node, layer),
        links_or_is_full(kernel, a, node, other, layer),
    ensures
        links_or_is_full(kernel, b, node, other, layer),
{
    let list = links(a, node, layer);
    if !list.contains(other as usize) {
        let near = a.nodes[node].vector;
        assert(b.nodes[node].id == a.nodes[node].id);
        assert(b.nodes[node].vector == near);
        assert(node_valid(a, node));
        lemma_links_in_range(a, node, layer);
        assert forall|j: int| 0 <= j < list.len() implies better(
            node_rank(kernel, b, near, #[trigger] list[j] as int),
            node_rank(kernel, b, near, other),
        ) by {
            lemma_same_rank(kernel, a, b, near, links(a, node, layer)[j] as int);
            lemma_same_rank(kernel, a, b, near, other);
            assert(better(
                node_rank(kernel, a, near, links(a, node, layer)[j] as int),
                node_rank(kernel, a, near, other),
            ));
        }
    }
}

/// Two nodes that are connected link to each other, each unless it has as many links as it
/// may have, all of them to closer nodes. Nothing else is linked anew.
pub proof fn law_connected_nodes_link_both_ways<K: Kernel>(
    kernel: K,
    g: GraphView,
    left: int,
    right: int,
    layer: int,
)
    requires
        valid(g),
        layered(g),
        g.nodes.len() <= usize::MAX,
        0 <= left < g.nodes.len(),
        0 <= right < g.nodes.len(),
        left != right,
        0 <= layer < g.nodes[left].neighbors.len(),
        layer < g.nodes[right].neighbors.len(),
        links(g, left, layer).no_duplicates(),
        links(g, right, layer).no_duplicates(),
        !links(g, left, layer).contains(right as usize),
        !links(g, right, layer).contains(left as usize),
    ensures
        ({
            let after = connected(kernel, g, left, right, layer);
            &&& links_or_is_full(kernel, after, left, right, layer)
            &&& links_or_is_full(kernel, after, right, left, layer)
            &&& links(after, left, layer).no_duplicates()
            &&& links(after, right, layer).no_duplicates()
            &&& links(g, left, layer).len() < g.config.m ==> links(after, left, layer) == links(
                g,
                left,
                layer,
            ).push(right as usize)
            &&& forall|i: int|
                0 <= i < g.nodes.len() && i != left && i != right ==> #[trigger] links(
                    after,
                    i,
                    layer,
                ) == links(g, i, layer)
        }),
{
    let once = linked(kernel, g, left, right, layer);
    let twice = connected(kernel, g, left, right, layer);
    lemma_linked(kernel, g, left, right, layer);
    lemma_linked_one_way(kernel, g, left, right, layer);
    assert(once.nodes[left].neighbors.len() == g.nodes[left].neighbors.len());
    assert(once.nodes[right].neighbors.len() == g.nodes[right].neighbors.len());
    assert(links(once, right, layer) == links(g, right, layer));
    lemma_linked(kernel, once, right, left, layer);
    lemma_linked_one_way(kernel, once, right, left, layer);
    assert(links(twice, left, layer) == links(once, left, layer));
    lemma_still_full(kernel, once, twice, left, right, layer);
    assert forall|i: int|
        0 <= i < g.nodes.len() && i != left && i != right implies #[trigger] links(
        twice,
        i,
        layer,
    ) == links(g, i, layer) by {
        assert(links(twice, i, layer) == links(once, i, layer));
        assert(links(once, i, layer) == links(g, i, layer));
    }
}

/// A new node that is put beside others in a layer links to every one of them, in their
/// order, and every one of them links back, unless it has as many links as it may have,
/// all of them to closer nodes. The links of all other nodes stay as they are.
pub proof fn law_new_nodes_are_linked_both_ways<K: Kernel>(
    kernel: K,
    g: GraphView,
    new: int,
    others: Seq<usize>,
    layer: int,
)
    requires
        growing(g, new, layer),
        distinct_links(g),
        0 <= layer < g.nodes[new].neighbors.len(),
        links(g, new, layer).len() == 0,
        others.len() <= g.config.m,
        others.no_duplicates(),
        forall|j: int| 0 <= j < others.len() ==> joins(g, new, layer, #[trigger] others[j]),
    ensures
        ({
            let after = connected_all(kernel, g, new, others, layer);
            &&& links(after, new, layer) == others
            &&& forall|j: int|
                0 <= j < others.len() ==> links_or_is_full(
                    kernel,
                    after,
                    #[trigger] others[j] as int,
                    new,
                    layer,
                )
            &&& forall|i: int|
                0 <= i < g.nodes.len() && i != new && !others.contains(i as usize)
                    ==> #[trigger] links(after, i, layer) == links(g, i, layer)
        }),
    decreases others.len(),
{
    if others.len() == 0 {
        assert(links(g, new, layer) =~= others);
    } else {
        let rest = others.drop_last();
        let other = others[others.len() - 1] as int;
        assert forall|j: int| 0 <= j < rest.len() implies joins(
            g,
            new,
            layer,
            #[trigger] rest[j],
        ) by {
            assert(joins(g, new, layer, others[j]));
        }
        assert(rest.no_duplicates()) by {
            assert forall|i: int, j: int|
                0 <= i < rest.len() && 0 <= j < rest.len() && i != j implies rest[i] != rest[j] by {
                assert(others[i] != others[j]);
            }
        }
        law_new_nodes_are_linked_both_ways(kernel, g, new, rest, layer);
        lemma_connected_all(kernel, g, new, rest, layer);
        let before = connected_all(kernel, g, new, rest, layer);
        let after = connected_all(kernel, g, new, others, layer);
        assert(joins(g, new, layer, others[others.len() - 1]));
        assert(before.nodes[new].neighbors.len() == g.nodes[new].neighbors.len());
        assert(before.nodes[other].neighbors.len() == g.nodes[other].neighbors.len());
        assert(!rest.contains(other as usize)) by {
            if rest.contains(other as usize) {
                let x = choose|x: int| 0 <= x < rest.len() && rest[x] == other as usize;
                assert(others[x] != others[others.len() - 1]);
            }
        }
        assert(links(before, other, layer) == links(g, other, layer));
        assert(links(g, other, layer).no_duplicates());
        assert(!links(before, other, layer).contains(new as usize)) by {
            if links(before, other, layer).contains(new as usize) {
                let x = choose|x: int|
                    0 <= x < links(g, other, layer).len() && links(g, other, layer)[x]
                        == new as usize;
                assert(links(g, other, layer)[x] != new);
            }
        }
        law_connected_nodes_link_both_ways(kernel, before, new, other, layer);
        lemma_connected(kernel, before, new, other, layer);
        assert(links(after, new, layer) =~= others);
        assert forall|j: int| 0 <= j < others.len() implies links_or_is_full(
            kernel,
            after,
            #[trigger] others[j] as int,
            new,
            layer,
        ) by {
            if j < rest.len() {
                assert(joins(g, new, layer, others[j]));
                assert(others[j] != others[others.len() - 1]);
                let x = rest[j] as int;
                assert(links_or_is_full(kernel, before, rest[j] as int, new, layer));
                assert(links(after, x, layer) == links(before, x, layer));
                lemma_still_full(kernel, before, after, x, new, layer);
            }
        }
        assert forall|i: int|
            0 <= i < g.nodes.len() && i != new && !others.contains(
                i as usize,
            ) implies #[trigger] links(after, i, layer) == links(g, i, layer) by {
            if rest.contains(i as usize) {
                let x = choose|x: int| 0 <= x < rest.len() && rest[x] == i as usize;
                assert(others[x] == i as usize);
            }
            assert(others[others.len() - 1] != i as usize);
            assert(links(after, i, layer) == links(before, i, layer));
            assert(links(before, i, layer) == links(g, i, layer));
        }
    }
}

} // verus!
