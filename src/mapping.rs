use vstd::prelude::*;

use crate::crossings::{
    count_index_crossings, crossing_count, edges_within, lemma_crossings_bounded, total_weight,
    IndexEdge,
};
use crate::error::OptimizerError;
use crate::pairwise::MAX_LAYER_WEIGHT;

verus! {

/// `k` is the first position of `x` in `nodes`.
pub open spec fn is_index_of<T>(nodes: Seq<T>, x: T, k: int) -> bool {
    &&& 0 <= k < nodes.len()
    &&& nodes[k] == x
    &&& forall|m: int| 0 <= m < k ==> nodes[m] != x
}

/// The first position of `x` in `nodes`, when `nodes` holds it.
pub open spec fn index_in<T>(nodes: Seq<T>, x: T) -> int {
    choose|k: int| is_index_of(nodes, x, k)
}

/// The edges in index space: each endpoint replaced by its position in its layer.
pub open spec fn mapped_edges<T>(left: Seq<T>, right: Seq<T>, edges: Seq<(T, T, usize)>) -> Seq<
    IndexEdge,
> {
    Seq::new(
        edges.len(),
        |p: int|
            (
                index_in(left, edges[p].0) as usize,
                index_in(right, edges[p].1) as usize,
                edges[p].2,
            ),
    )
}

/// Every edge leaves a node of `left` and enters a node of `right`.
pub open spec fn endpoints_present<T>(left: Seq<T>, right: Seq<T>, edges: Seq<(T, T, usize)>) -> bool {
    forall|p: int|
        0 <= p < edges.len() ==> left.contains((#[trigger] edges[p]).0) && right.contains(
            edges[p].1,
        )
}

/// Sum of the weights of `edges`.
pub open spec fn edge_weight_total<T>(edges: Seq<(T, T, usize)>) -> int
    decreases edges.len(),
{
    if edges.len() == 0 {
        0
    } else {
        edge_weight_total(edges.drop_last()) + edges.last().2
    }
}

proof fn lemma_index_unique<T>(nodes: Seq<T>, x: T, k: int)
    requires
        is_index_of(nodes, x, k),
    ensures
        index_in(nodes, x) == k,
{
    let c = index_in(nodes, x);
    assert(is_index_of(nodes, x, c));
    if c < k {
        assert(nodes[c] != x);
    } else if k < c {
        assert(nodes[k] != x);
    }
}

/// The first position of `x` in `nodes`.
fn index_of<T: PartialEq>(nodes: &Vec<T>, x: &T) -> (r: Option<usize>)
    requires
        vstd::laws_eq::obeys_concrete_eq::<T>(),
    ensures
        r matches Some(k) ==> is_index_of(nodes@, *x, k as int),
        r is None ==> !nodes@.contains(*x),
{
    proof {
        reveal(vstd::laws_eq::obeys_concrete_eq);
    }
    let mut k: usize = 0;
    while k < nodes.len()
        invariant
            k <= nodes@.len(),
            vstd::laws_eq::obeys_concrete_eq::<T>(),
            forall|m: int| 0 <= m < k ==> nodes@[m] != *x,
        decreases nodes@.len() - k,
    {
        proof {
            reveal(vstd::laws_eq::obeys_concrete_eq);
        }
        if nodes[k] == *x {
            return Some(k);
        }
        k = k + 1;
    }
    None
}

/// The edges with their endpoints exchanged.
pub fn swap_edges<T: Clone>(edges: &Vec<(T, T, usize)>) -> (r: Vec<(T, T, usize)>)
    ensures
        r@.len() == edges@.len(),
        forall|p: int|
            0 <= p < edges@.len() ==> cloned(edges@[p].1, (#[trigger] r@[p]).0) && cloned(
                edges@[p].0,
                r@[p].1,
            ) && r@[p].2 == edges@[p].2,
{
    let mut r: Vec<(T, T, usize)> = Vec::new();
    let mut p: usize = 0;
    while p < edges.len()
        invariant
            p <= edges@.len(),
            r@.len() == p,
            forall|m: int|
                0 <= m < p ==> cloned(edges@[m].1, (#[trigger] r@[m]).0) && cloned(
                    edges@[m].0,
                    r@[m].1,
                ) && r@[m].2 == edges@[m].2,
        decreases edges@.len() - p,
    {
        let edge = &edges[p];
        r.push((edge.1.clone(), edge.0.clone(), edge.2));
        p = p + 1;
    }
    r
}

/// Re-expresses `edges` in index space: each endpoint becomes its position in its layer;
/// `None` when an endpoint is missing from its layer.
pub fn map_edges<T: PartialEq>(nodes1: &Vec<T>, nodes2: &Vec<T>, edges: &Vec<(T, T, usize)>) -> (r:
    Option<Vec<IndexEdge>>)
    requires
        vstd::laws_eq::obeys_concrete_eq::<T>(),
    ensures
        r matches Some(m) ==> m@ == mapped_edges(nodes1@, nodes2@, edges@),
        r is None <==> !endpoints_present(nodes1@, nodes2@, edges@),
{
    let mut mapped: Vec<IndexEdge> = Vec::new();
    let mut p: usize = 0;
    while p < edges.len()
        invariant
            p <= edges@.len(),
            vstd::laws_eq::obeys_concrete_eq::<T>(),
            mapped@ == mapped_edges(nodes1@, nodes2@, edges@).take(p as int),
            forall|m: int|
                0 <= m < p ==> nodes1@.contains((#[trigger] edges@[m]).0) && nodes2@.contains(
                    edges@[m].1,
                ),
        decreases edges@.len() - p,
    {
        let edge = &edges[p];
        let left = index_of(nodes1, &edge.0);
        let right = index_of(nodes2, &edge.1);
        match (left, right) {
            (Some(l), Some(r)) => {
                proof {
                    lemma_index_unique(nodes1@, edges@[p as int].0, l as int);
                    lemma_index_unique(nodes2@, edges@[p as int].1, r as int);
                    assert(nodes1@[l as int] == edges@[p as int].0);
                    assert(nodes2@[r as int] == edges@[p as int].1);
                }
                mapped.push((l, r, edge.2));
                assert(mapped@ =~= mapped_edges(nodes1@, nodes2@, edges@).take(p + 1));
            },
            _ => {
                return None;
            },
        }
        p = p + 1;
    }
    assert(mapped_edges(nodes1@, nodes2@, edges@).take(edges@.len() as int) =~= mapped_edges(
        nodes1@,
        nodes2@,
        edges@,
    ));
    Some(mapped)
}

/// Mapped edges lie inside their layers and keep their total weight.
pub proof fn lemma_mapped_shape<T>(left: Seq<T>, right: Seq<T>, edges: Seq<(T, T, usize)>)
    requires
        endpoints_present(left, right, edges),
    ensures
        edges_within(mapped_edges(left, right, edges), left.len() as int, right.len() as int),
        total_weight(mapped_edges(left, right, edges)) == edge_weight_total(edges),
    decreases edges.len(),
{
    let m = mapped_edges(left, right, edges);
    assert forall|p: int| 0 <= p < m.len() implies (#[trigger] m[p]).0 < left.len() && m[p].1
        < right.len() by {
        assert(left.contains(edges[p].0));
        assert(right.contains(edges[p].1));
        let k = choose|k: int| 0 <= k < left.len() && left[k] == edges[p].0;
        let k2 = choose|k: int| 0 <= k < right.len() && right[k] == edges[p].1;
        lemma_first_index_exists(left, edges[p].0, k);
        lemma_first_index_exists(right, edges[p].1, k2);
    }
    if edges.len() > 0 {
        let shorter = edges.drop_last();
        assert(endpoints_present(left, right, shorter)) by {
            assert forall|p: int| 0 <= p < shorter.len() implies left.contains(
                (#[trigger] shorter[p]).0,
            ) && right.contains(shorter[p].1) by {
                assert(shorter[p] == edges[p]);
            }
        }
        lemma_mapped_shape(left, right, shorter);
        let ms = mapped_edges(left, right, shorter);
        assert(ms =~= m.drop_last());
        crate::sums::lemma_sum_ext(
            ms.len() as int,
            crate::crossings::weights_of(ms),
            crate::crossings::weights_of(m),
        );
    }
}

/// Where `x` occurs in `nodes`, a first occurrence exists.
proof fn lemma_first_index_exists<T>(nodes: Seq<T>, x: T, k: int)
    requires
        0 <= k < nodes.len(),
        nodes[k] == x,
    ensures
        is_index_of(nodes, x, index_in(nodes, x)),
    decreases k,
{
    if exists|m: int| 0 <= m < k && nodes[m] == x {
        let m = choose|m: int| 0 <= m < k && nodes[m] == x;
        lemma_first_index_exists(nodes, x, m);
    } else {
        assert(is_index_of(nodes, x, k));
    }
}

/// The weighted crossings between two ordered layers.
pub fn count_crossings<T: PartialEq>(nodes1: &Vec<T>, nodes2: &Vec<T>, edges: &Vec<(T, T, usize)>) -> (r:
    u64)
    requires
        vstd::laws_eq::obeys_concrete_eq::<T>(),
        endpoints_present(nodes1@, nodes2@, edges@),
        edge_weight_total(edges@) <= MAX_LAYER_WEIGHT,
    ensures
        r == crossing_count(mapped_edges(nodes1@, nodes2@, edges@)),
{
    let mapped = map_edges(nodes1, nodes2, edges);
    proof {
        lemma_mapped_shape(nodes1@, nodes2@, edges@);
    }
    match mapped {
        Some(m) => {
            proof {
                lemma_crossings_bounded(m@);
                let tw = total_weight(m@);
                assert(tw * tw <= 0x7fff_ffff * 0x7fff_ffff) by (nonlinear_arith)
                    requires
                        0 <= tw <= 0x7fff_ffff,
                ;
            }
            count_index_crossings(nodes1.len(), nodes2.len(), &m)
        },
        None => 0,
    }
}

/// The edge sets fit `nodes`: one set fewer than there are layers, and every edge of set
/// `s` leaves a node of layer `s` and enters a node of layer `s + 1`.
pub open spec fn layers_consistent<T>(nodes: Seq<Vec<T>>, edges: Seq<Vec<(T, T, usize)>>) -> bool {
    &&& edges.len() + 1 == nodes.len()
    &&& forall|s: int|
        0 <= s < edges.len() ==> endpoints_present(nodes[s]@, nodes[s + 1]@, (#[trigger] edges[s])@)
}

/// Every set before `s`, and the first `k` edges of set `s`, have both endpoints in their
/// layers.
pub open spec fn edges_ok_before<T>(nodes: Seq<Vec<T>>, edges: Seq<Vec<(T, T, usize)>>, s: int, k: int) -> bool {
    &&& forall|t: int|
        0 <= t < s ==> endpoints_present(nodes[t]@, nodes[t + 1]@, (#[trigger] edges[t])@)
    &&& forall|m: int|
        0 <= m < k ==> nodes[s]@.contains((#[trigger] edges[s]@[m]).0) && nodes[s + 1]@.contains(
            edges[s]@[m].1,
        )
}

/// `MissingNode { layer_index, edge_index }` names the first edge, set by set, with an
/// endpoint missing from its layer, and that endpoint's layer: the left one when it is
/// missing, else the right one.
pub open spec fn first_missing<T>(
    nodes: Seq<Vec<T>>,
    edges: Seq<Vec<(T, T, usize)>>,
    layer_index: int,
    edge_index: int,
) -> bool {
    ||| {
        &&& 0 <= layer_index < edges.len()
        &&& 0 <= edge_index < edges[layer_index]@.len()
        &&& edges_ok_before(nodes, edges, layer_index, edge_index)
        &&& !nodes[layer_index]@.contains(edges[layer_index]@[edge_index].0)
    }
    ||| {
        &&& 0 < layer_index <= edges.len()
        &&& 0 <= edge_index < edges[layer_index - 1]@.len()
        &&& edges_ok_before(nodes, edges, layer_index - 1, edge_index)
        &&& nodes[layer_index - 1]@.contains(edges[layer_index - 1]@[edge_index].0)
        &&& !nodes[layer_index]@.contains(edges[layer_index - 1]@[edge_index].1)
    }
}

/// `e` is the error that the layer checks report: a wrong number of edge sets first, else
/// the first missing endpoint.
pub open spec fn layer_error<T>(nodes: Seq<Vec<T>>, edges: Seq<Vec<(T, T, usize)>>, e: OptimizerError) -> bool {
    match e {
        OptimizerError::EdgeLayerMismatch { edges: ne, layers: nl } => {
            &&& edges.len() + 1 != nodes.len()
            &&& ne == edges.len()
            &&& nl == nodes.len()
        },
        OptimizerError::MissingNode { layer_index: li, edge_index: ei } => {
            &&& edges.len() + 1 == nodes.len()
            &&& first_missing(nodes, edges, li as int, ei as int)
        },
        _ => false,
    }
}

/// Checks that there is one edge set fewer than there are layers, and that every edge
/// endpoint is in its layer.
pub fn validate_layers<T: PartialEq>(nodes: &Vec<Vec<T>>, edges: &Vec<Vec<(T, T, usize)>>) -> (r:
    Result<(), OptimizerError>)
    requires
        vstd::laws_eq::obeys_concrete_eq::<T>(),
    ensures
        r is Ok <==> layers_consistent(nodes@, edges@),
        edges@.len() + 1 != nodes@.len() <==> r == Err::<(), OptimizerError>(
            OptimizerError::EdgeLayerMismatch { edges: edges@.len() as usize, layers: nodes@.len() as usize },
        ),
        r matches Err(e) ==> layer_error(nodes@, edges@, e),
{
    if edges.len() >= nodes.len() || edges.len() + 1 != nodes.len() {
        return Err(OptimizerError::EdgeLayerMismatch { edges: edges.len(), layers: nodes.len() });
    }
    let layer_count = nodes.len();
    let mut s: usize = 0;
    while s < edges.len()
        invariant
            s <= edges@.len(),
            layer_count == nodes@.len(),
            edges@.len() + 1 == nodes@.len(),
            vstd::laws_eq::obeys_concrete_eq::<T>(),
            forall|t: int|
                0 <= t < s ==> endpoints_present(nodes@[t]@, nodes@[t + 1]@, (#[trigger] edges@[t])@),
        decreases edges@.len() - s,
    {
        let set = &edges[s];
        let mut p: usize = 0;
        while p < set.len()
            invariant
                p <= set@.len(),
                s < edges@.len(),
                *set == edges@[s as int],
                forall|t: int|
                    0 <= t < s ==> endpoints_present(nodes@[t]@, nodes@[t + 1]@, (#[trigger] edges@[t])@),
                layer_count == nodes@.len(),
                edges@.len() + 1 == nodes@.len(),
                vstd::laws_eq::obeys_concrete_eq::<T>(),
                forall|m: int|
                    0 <= m < p ==> nodes@[s as int]@.contains((#[trigger] set@[m]).0)
                        && nodes@[s + 1]@.contains(set@[m].1),
            decreases set@.len() - p,
        {
            if index_of(&nodes[s], &set[p].0).is_none() {
                assert(edges_ok_before(nodes@, edges@, s as int, p as int));
                return Err(OptimizerError::MissingNode { layer_index: s, edge_index: p });
            }
            if index_of(&nodes[s + 1], &set[p].1).is_none() {
                assert(edges_ok_before(nodes@, edges@, s as int, p as int));
                assert((s + 1) - 1 == s);
                return Err(OptimizerError::MissingNode { layer_index: s + 1, edge_index: p });
            }
            p = p + 1;
        }
        s = s + 1;
    }
    Ok(())
}

} // verus!
