use vstd::prelude::*;

use crate::crossings::{
    count_index_crossings, crossing_count, edges_within, lemma_crossings_bounded, total_weight,
    IndexEdge,
};
use crate::error::OptimizerError;
use crate::layers::{
    add_matrix, invert, invert_edges, lemma_invert_shape, lemma_ranks_within, lemma_relabel_shape,
    order_within, rank_table, ranks, relabel, relabel_edges,
};
use crate::mapping::{
    edge_weight_total, endpoints_present, layer_error, layers_consistent, lemma_mapped_shape, map_edges,
    mapped_edges, validate_layers,
};
use crate::pairwise::{
    get_pairwise_matrix, is_pairwise_matrix, lemma_pair_bound, pair_contribution, MAX_LAYER_WEIGHT,
};
use crate::consistency::{
    lemma_compose_rank, lemma_identity_cost, lemma_invert_crossings, lemma_order_cost_bounded, lemma_order_cost_range,
    lemma_pairwise_tracks_crossings, lemma_tracks_ext, lemma_tracks_sum, order_cost, reordered_edges,
};
use crate::reducer::{
    border_list, cooldown, fits_i64, greedy, greedy_run, greedy_runs, identity, identity_order,
    is_permutation, is_square, keeps_borders, swap_adjacent, tracks,
};
use crate::sums::sum;

verus! {

/// Sum of the weights of every edge set.
pub open spec fn all_edge_weight<T>(edges: Seq<Vec<(T, T, usize)>>) -> int
    decreases edges.len(),
{
    if edges.len() == 0 {
        0
    } else {
        all_edge_weight(edges.drop_last()) + edge_weight_total(edges.last()@)
    }
}

/// Sum of the total weights of the first `k` edge sets.
pub open spec fn weight_prefix(sets: Seq<Seq<IndexEdge>>, k: int) -> int
    decreases k,
{
    if k <= 0 {
        0
    } else {
        weight_prefix(sets, k - 1) + total_weight(sets[k - 1])
    }
}

/// The identifiers of each layer, as sequences.
pub open spec fn layers_view<T>(layers: Seq<Vec<T>>) -> Seq<Seq<T>> {
    Seq::new(layers.len(), |l: int| layers[l]@)
}

proof fn lemma_weight_prefix_push(sets: Seq<Seq<IndexEdge>>, x: Seq<IndexEdge>, k: int)
    requires
        0 <= k <= sets.len(),
    ensures
        weight_prefix(sets.push(x), k) == weight_prefix(sets, k),
    decreases k,
{
    if k > 0 {
        lemma_weight_prefix_push(sets, x, k - 1);
    }
}

/// `order` rearranged by `perm`: position `k` takes what was at `perm[k]`.
pub open spec fn compose(order: Seq<usize>, perm: Seq<usize>) -> Seq<usize> {
    Seq::new(perm.len(), |k: int| order[perm[k] as int])
}

/// Optimizes the node order of a layered graph, layer by layer.
pub struct LayoutOptimizer<T> {
    node_layers: Vec<Vec<T>>,
    orders: Vec<Vec<usize>>,
    edges: Vec<Vec<IndexEdge>>,
}

impl<T> LayoutOptimizer<T> {
    /// The node identifiers of each layer, in the order they were given.
    pub closed spec fn ids(&self) -> Seq<Seq<T>> {
        Seq::new(self.node_layers@.len(), |l: int| self.node_layers@[l]@)
    }

    /// The current order of each layer, as indices into `ids()`.
    pub closed spec fn orders(&self) -> Seq<Seq<usize>> {
        Seq::new(self.orders@.len(), |l: int| self.orders@[l]@)
    }

    /// Edge set `s` joins layers `s` and `s + 1`, by indices into `ids()`.
    pub closed spec fn edge_sets(&self) -> Seq<Seq<IndexEdge>> {
        Seq::new(self.edges@.len(), |s: int| self.edges@[s]@)
    }

    pub open spec fn layer_count(&self) -> int {
        self.ids().len() as int
    }

    pub open spec fn layer_size(&self, l: int) -> int {
        self.ids()[l].len() as int
    }

    /// The internal invariant: one order per layer, a permutation of its nodes; one edge set
    /// between neighbouring layers, edges inside their layers, and a total weight within
    /// `MAX_LAYER_WEIGHT`.
    pub open spec fn wf(&self) -> bool {
        &&& 1 <= self.layer_count() <= usize::MAX
        &&& self.orders().len() == self.layer_count()
        &&& self.edge_sets().len() + 1 == self.layer_count()
        &&& forall|l: int|
            0 <= l < self.layer_count() ==> order_within(
                #[trigger] self.orders()[l],
                self.layer_size(l),
            )
        &&& forall|l: int|
            0 <= l < self.layer_count() ==> is_permutation(
                #[trigger] self.orders()[l],
                self.layer_size(l),
            )
        &&& forall|s: int|
            0 <= s < self.edge_sets().len() ==> edges_within(
                #[trigger] self.edge_sets()[s],
                self.layer_size(s),
                self.layer_size(s + 1),
            )
        &&& weight_prefix(self.edge_sets(), self.edge_sets().len() as int) <= MAX_LAYER_WEIGHT
    }

    /// Edge set `s` in index space: each endpoint replaced by its current position.
    pub open spec fn ranked_edges(&self, s: int) -> Seq<IndexEdge> {
        relabel(
            self.edge_sets()[s],
            ranks(self.orders()[s], self.layer_size(s)),
            ranks(self.orders()[s + 1], self.layer_size(s + 1)),
        )
    }

    /// The crossings between layers `s` and `s + 1` in their current orders.
    pub open spec fn pair_crossings(&self, s: int) -> int {
        crossing_count(self.ranked_edges(s))
    }

    /// The crossings between layer `l` and its neighbours.
    pub open spec fn layer_crossings(&self, l: int) -> int {
        (if l > 0 {
            self.pair_crossings(l - 1)
        } else {
            0
        }) + (if l + 1 < self.layer_count() {
            self.pair_crossings(l)
        } else {
            0
        })
    }

    /// The edges between layer `layer` and the layer above it (`upper`) or below it, in
    /// index space with `layer` as the swappable side.
    pub open spec fn side_edges(&self, layer: int, upper: bool) -> Seq<IndexEdge> {
        if upper {
            invert(self.ranked_edges(layer - 1))
        } else {
            self.ranked_edges(layer)
        }
    }

    /// The crossings between layer `layer` and its neighbours once `layer` is rearranged by
    /// the permutation `perm`.
    pub open spec fn layer_cost(&self, layer: int, perm: Seq<usize>) -> int {
        (if layer > 0 {
            order_cost(self.side_edges(layer, true), perm)
        } else {
            0
        }) + (if layer + 1 < self.layer_count() {
            order_cost(self.side_edges(layer, false), perm)
        } else {
            0
        })
    }

    /// Entry `[a][b]` of the pairwise matrix of layer `layer` against its neighbours: the
    /// sum of the entries against the layer above and the layer below.
    pub open spec fn layer_pair(&self, layer: int, a: int, b: int) -> int {
        (if layer > 0 {
            pair_contribution(self.side_edges(layer, true), a, b)
        } else {
            0
        }) + (if layer + 1 < self.layer_count() {
            pair_contribution(self.side_edges(layer, false), a, b)
        } else {
            0
        })
    }

    /// `matrix` is the pairwise matrix of layer `layer` against its neighbours.
    pub open spec fn is_layer_matrix(&self, layer: int, matrix: Seq<Vec<i64>>) -> bool {
        &&& is_square(matrix, self.layer_size(layer))
        &&& forall|a: int, b: int|
            0 <= a < self.layer_size(layer) && 0 <= b < self.layer_size(layer) ==> #[trigger] matrix[a]@[b]
                == self.layer_pair(layer, a, b)
    }

    /// The crossings of the whole drawing.
    pub open spec fn total_crossings(&self) -> int {
        sum(self.layer_count() - 1, |s: int| self.pair_crossings(s))
    }

    /// The node identifiers of each layer in its current order.
    pub open spec fn nodes(&self) -> Seq<Seq<T>> {
        Seq::new(
            self.layer_count() as nat,
            |l: int|
                Seq::new(
                    self.layer_size(l) as nat,
                    |k: int| self.ids()[l][self.orders()[l][k] as int],
                ),
        )
    }

    /// `self` and `other` hold the same layers and edges, and the same orders but at
    /// `layer`, where `other`'s order is `self`'s rearranged by a permutation.
    pub open spec fn rearranged_at(&self, other: &Self, layer: int) -> bool {
        &&& other.ids() == self.ids()
        &&& other.edge_sets() == self.edge_sets()
        &&& other.orders().len() == self.orders().len()
        &&& forall|l: int|
            0 <= l < self.orders().len() && l != layer ==> #[trigger] other.orders()[l]
                == self.orders()[l]
    }
}

proof fn lemma_weight_prefix_parts(sets: Seq<Seq<IndexEdge>>, k: int, s: int)
    requires
        0 <= s < k <= sets.len(),
        forall|t: int| 0 <= t < sets.len() ==> 0 <= #[trigger] total_weight(sets[t]),
    ensures
        total_weight(sets[s]) <= weight_prefix(sets, k),
        0 <= weight_prefix(sets, k),
    decreases k,
{
    if s < k - 1 {
        lemma_weight_prefix_parts(sets, k - 1, s);
    } else {
        lemma_weight_prefix_nonneg(sets, k - 1);
    }
}

proof fn lemma_weight_prefix_nonneg(sets: Seq<Seq<IndexEdge>>, k: int)
    requires
        k <= sets.len(),
        forall|t: int| 0 <= t < sets.len() ==> 0 <= #[trigger] total_weight(sets[t]),
    ensures
        0 <= weight_prefix(sets, k),
    decreases k,
{
    if k > 0 {
        lemma_weight_prefix_nonneg(sets, k - 1);
    }
}

impl<T> LayoutOptimizer<T> {
    proof fn lemma_set_weight(&self, s: int)
        requires
            self.wf(),
            0 <= s < self.edge_sets().len(),
        ensures
            0 <= total_weight(self.edge_sets()[s]) <= MAX_LAYER_WEIGHT,
            total_weight(self.ranked_edges(s)) == total_weight(self.edge_sets()[s]),
            edges_within(self.ranked_edges(s), self.layer_size(s), self.layer_size(s + 1)),
    {
        let sets = self.edge_sets();
        assert forall|t: int| 0 <= t < sets.len() implies 0 <= #[trigger] total_weight(sets[t]) by {
            lemma_crossings_bounded(sets[t]);
        }
        lemma_weight_prefix_parts(sets, sets.len() as int, s);
        lemma_ranks_within(self.orders()[s], self.layer_size(s));
        lemma_ranks_within(self.orders()[s + 1], self.layer_size(s + 1));
        lemma_relabel_shape(
            sets[s],
            ranks(self.orders()[s], self.layer_size(s)),
            ranks(self.orders()[s + 1], self.layer_size(s + 1)),
            self.layer_size(s),
            self.layer_size(s + 1),
        );
    }

    /// Edge set `s` in index space, computed.
    fn ranked_set(&self, s: usize) -> (r: Vec<IndexEdge>)
        requires
            self.wf(),
            s + 1 < self.layer_count(),
        ensures
            r@ == self.ranked_edges(s as int),
    {
        assert(self.orders()[s as int] == self.orders@[s as int]@);
        assert(self.orders()[s + 1] == self.orders@[s + 1]@);
        assert(self.edge_sets()[s as int] == self.edges@[s as int]@);
        assert(self.ids()[s as int] == self.node_layers@[s as int]@);
        assert(self.ids()[s + 1] == self.node_layers@[s + 1]@);
        let left = rank_table(&self.orders[s], self.node_layers[s].len());
        let right = rank_table(&self.orders[s + 1], self.node_layers[s + 1].len());
        assert(edges_within(self.edge_sets()[s as int], self.layer_size(s as int), self.layer_size(s + 1)));
        relabel_edges(&self.edges[s], &left, &right)
    }

    /// The crossings between layers `s` and `s + 1`, computed.
    fn count_pair(&self, s: usize) -> (r: u64)
        requires
            self.wf(),
            s + 1 < self.layer_count(),
        ensures
            r == self.pair_crossings(s as int),
            r <= MAX_LAYER_WEIGHT * MAX_LAYER_WEIGHT,
    {
        let ranked = self.ranked_set(s);
        proof {
            self.lemma_set_weight(s as int);
            lemma_crossings_bounded(ranked@);
            let tw = total_weight(ranked@);
            assert(tw * tw <= 0x7fff_ffff * 0x7fff_ffff) by (nonlinear_arith)
                requires
                    0 <= tw <= 0x7fff_ffff,
            ;
        }
        count_index_crossings(self.node_layers[s].len(), self.node_layers[s + 1].len(), &ranked)
    }

    /// The crossings between layer `layer` and its neighbours, computed.
    pub(crate) fn count_layer(&self, layer: usize) -> (r: i64)
        requires
            self.wf(),
            layer < self.layer_count(),
        ensures
            r == self.layer_crossings(layer as int),
    {
        let mut total: u64 = 0;
        if layer > 0 {
            total = self.count_pair(layer - 1);
        }
        if layer + 1 < self.node_layers.len() {
            let below = self.count_pair(layer);
            assert(0x7fff_ffff * 0x7fff_ffff + 0x7fff_ffff * 0x7fff_ffff <= i64::MAX);
            total = total + below;
        }
        total as i64
    }

    /// Runs `steps` Metropolis runs on layer `layer` and keeps the order they reach;
    /// returns the layer's crossings in its new order.
    pub(crate) fn rearrange_layer<F: Fn(usize, i64) -> bool>(
        &mut self,
        layer: usize,
        steps: usize,
        max_iterations: usize,
        accept: &F,
        borders: &Option<Vec<usize>>,
    ) -> (r: i64)
        requires
            old(self).wf(),
            layer < old(self).layer_count(),
            forall|s: usize, d: i64| #[trigger] accept.requires((s, d)),
        ensures
            final(self).wf(),
            old(self).rearranged_at(&*final(self), layer as int),
            exists|perm: Seq<usize>|
                {
                    &&& is_permutation(perm, old(self).layer_size(layer as int))
                    &&& keeps_borders(
                        identity(old(self).layer_size(layer as int)),
                        perm,
                        border_list(*borders),
                    )
                    &&& #[trigger] final(self).orders()[layer as int] == compose(
                        old(self).orders()[layer as int],
                        perm,
                    )
                    &&& greedy(*accept) ==> exists|matrix: Seq<Vec<i64>>|
                        #[trigger] old(self).is_layer_matrix(layer as int, matrix) && (perm, r)
                            == greedy_runs(
                            matrix,
                            old(self).layer_size(layer as int),
                            border_list(*borders),
                            (
                                identity(old(self).layer_size(layer as int)),
                                old(self).layer_crossings(layer as int) as i64,
                            ),
                            max_iterations as nat,
                            steps as nat,
                        )
                },
            r == final(self).layer_crossings(layer as int),
            greedy(*accept) ==> r <= old(self).layer_crossings(layer as int),
    {
        let (matrix, count) = self.layer_problem(layer);
        let n = self.node_layers[layer].len();
        assert(self.ids()[layer as int] == self.node_layers@[layer as int]@);
        assert(self.orders()[layer as int] == self.orders@[layer as int]@);
        let (perm, running) = cooldown(n, &matrix, max_iterations, steps, accept, count, borders);
        proof {
            self.lemma_identity_layer_cost(layer as int, n as int);
            let cost = |p: Seq<usize>| self.layer_cost(layer as int, p);
            assert(cost(identity(n as int)) == count);
            assert(tracks(matrix@, n as int, cost));
            assert(running == self.layer_cost(layer as int, perm@));
        }
        let new_order = compose_order(&self.orders[layer], &perm, n);
        let ghost before = *self;
        self.orders.set(layer, new_order);
        proof {
            assert(self.orders() =~= before.orders().update(layer as int, new_order@));
            assert(self.ids() =~= before.ids());
            assert(self.edge_sets() =~= before.edge_sets());
            assert(self.orders()[layer as int] == compose(before.orders()[layer as int], perm@));
            before.lemma_rearranged_cost(&*self, layer as int, n as int, perm@);
        }
        self.count_layer(layer)
    }

    /// Each side's edges, with the static side's ranks below `usize::MAX + 1`.
    proof fn lemma_side_within(&self, layer: int, upper: bool, n: int)
        requires
            self.wf(),
            0 <= layer < self.layer_count(),
            n == self.layer_size(layer),
            upper ==> layer > 0,
            !upper ==> layer + 1 < self.layer_count(),
        ensures
            edges_within(self.side_edges(layer, upper), n, usize::MAX as int + 1),
    {
        if upper {
            self.lemma_set_weight(layer - 1);
            lemma_invert_shape(self.ranked_edges(layer - 1), self.layer_size(layer - 1), n);
        } else {
            self.lemma_set_weight(layer);
        }
        let e = self.side_edges(layer, upper);
        assert forall|p: int| 0 <= p < e.len() implies (#[trigger] e[p]).0 < n && e[p].1 < usize::MAX
            as int + 1 by {}
    }

    /// In its current order, a layer's cost is its crossing count.
    proof fn lemma_identity_layer_cost(&self, layer: int, n: int)
        requires
            self.wf(),
            0 <= layer < self.layer_count(),
            n == self.layer_size(layer),
            n <= usize::MAX,
        ensures
            self.layer_cost(layer, identity(n)) == self.layer_crossings(layer),
    {
        if layer > 0 {
            self.lemma_side_within(layer, true, n);
            lemma_identity_cost(self.side_edges(layer, true), n);
            lemma_invert_crossings(self.ranked_edges(layer - 1));
        }
        if layer + 1 < self.layer_count() {
            self.lemma_side_within(layer, false, n);
            lemma_identity_cost(self.side_edges(layer, false), n);
        }
    }

    /// After layer `layer` is rearranged by `perm`, its crossing count is the cost that
    /// `layer_cost` gives for `perm`.
    proof fn lemma_rearranged_cost(&self, other: &Self, layer: int, n: int, perm: Seq<usize>)
        requires
            self.wf(),
            0 <= layer < self.layer_count(),
            n == self.layer_size(layer),
            n <= usize::MAX,
            is_permutation(perm, n),
            other.ids() == self.ids(),
            other.edge_sets() == self.edge_sets(),
            other.orders() == self.orders().update(layer, compose(self.orders()[layer], perm)),
        ensures
            other.layer_crossings(layer) == self.layer_cost(layer, perm),
    {
        let order = self.orders()[layer];
        if layer + 1 < self.layer_count() {
            let e = self.edge_sets()[layer];
            assert(edges_within(e, n, self.layer_size(layer + 1)));
            let lhs = other.ranked_edges(layer);
            let rhs = reordered_edges(self.ranked_edges(layer), perm);
            assert forall|p: int| 0 <= p < e.len() implies #[trigger] lhs[p] == rhs[p] by {
                lemma_compose_rank(order, perm, n, e[p].0 as int);
            }
            assert(lhs =~= rhs);
        }
        if layer > 0 {
            let e = self.edge_sets()[layer - 1];
            assert(edges_within(e, self.layer_size(layer - 1), n));
            let lhs = invert(other.ranked_edges(layer - 1));
            let rhs = reordered_edges(invert(self.ranked_edges(layer - 1)), perm);
            assert forall|p: int| 0 <= p < e.len() implies #[trigger] lhs[p] == rhs[p] by {
                lemma_compose_rank(order, perm, n, e[p].1 as int);
            }
            assert(lhs =~= rhs);
            lemma_invert_crossings(other.ranked_edges(layer - 1));
        }
    }

    /// The pairwise matrix and the crossing count of layer `layer` against the layer
    /// above it (`upper`) or below it, in index space.
    fn side_problem(&self, layer: usize, upper: bool) -> (r: (Vec<Vec<i64>>, u64))
        requires
            self.wf(),
            layer < self.layer_count(),
            upper ==> layer > 0,
            !upper ==> layer + 1 < self.layer_count(),
        ensures
            is_square(r.0@, self.layer_size(layer as int)),
            forall|a: int, b: int|
                0 <= a < self.layer_size(layer as int) && 0 <= b < self.layer_size(layer as int)
                    ==> -(MAX_LAYER_WEIGHT * MAX_LAYER_WEIGHT) <= #[trigger] r.0@[a]@[b]
                    <= MAX_LAYER_WEIGHT * MAX_LAYER_WEIGHT,
            r.1 <= MAX_LAYER_WEIGHT * MAX_LAYER_WEIGHT,
            is_pairwise_matrix(r.0@, self.layer_size(layer as int), self.side_edges(layer as int, upper)),
            r.1 == crossing_count(self.side_edges(layer as int, upper)),
            edges_within(self.side_edges(layer as int, upper), self.layer_size(layer as int), usize::MAX as int + 1),
            total_weight(self.side_edges(layer as int, upper)) <= MAX_LAYER_WEIGHT,
    {
        let n = self.node_layers[layer].len();
        assert(self.ids()[layer as int] == self.node_layers@[layer as int]@);
        let (edges, m) = if upper {
            let ranked = self.ranked_set(layer - 1);
            let m = self.node_layers[layer - 1].len();
            assert(self.ids()[layer - 1] == self.node_layers@[layer - 1]@);
            proof {
                self.lemma_set_weight(layer - 1);
                lemma_invert_shape(ranked@, m as int, n as int);
            }
            (invert_edges(&ranked), m)
        } else {
            let ranked = self.ranked_set(layer);
            let m = self.node_layers[layer + 1].len();
            assert(self.ids()[layer + 1] == self.node_layers@[layer + 1]@);
            proof {
                self.lemma_set_weight(layer as int);
            }
            (ranked, m)
        };
        let tw = Ghost(total_weight(edges@));
        proof {
            lemma_crossings_bounded(edges@);
            assert(tw@ * tw@ <= 0x7fff_ffff * 0x7fff_ffff) by (nonlinear_arith)
                requires
                    0 <= tw@ <= 0x7fff_ffff,
            ;
        }
        let matrix = get_pairwise_matrix(n, m, &edges);
        let count = count_index_crossings(n, m, &edges);
        proof {
            assert forall|a: int, b: int| 0 <= a < n && 0 <= b < n implies -(MAX_LAYER_WEIGHT
                * MAX_LAYER_WEIGHT) <= #[trigger] matrix@[a]@[b] <= MAX_LAYER_WEIGHT
                * MAX_LAYER_WEIGHT by {
                lemma_pair_bound(edges@, a, b, edges@.len() as int);
            }
            assert forall|p: int| 0 <= p < edges@.len() implies (#[trigger] edges@[p]).0 < n
                && edges@[p].1 < usize::MAX as int + 1 by {}
        }
        (matrix, count)
    }

    /// The pairwise matrix of layer `layer` against its neighbours, and the layer's
    /// crossing count, in index space: the matrix tracks the layer's crossings under every
    /// rearrangement of the layer.
    pub(crate) fn layer_problem(&self, layer: usize) -> (r: (Vec<Vec<i64>>, i64))
        requires
            self.wf(),
            layer < self.layer_count(),
        ensures
            is_square(r.0@, self.layer_size(layer as int)),
            tracks(r.0@, self.layer_size(layer as int), |perm: Seq<usize>| self.layer_cost(layer as int, perm)),
            fits_i64(self.layer_size(layer as int), |perm: Seq<usize>| self.layer_cost(layer as int, perm)),
            r.1 == self.layer_crossings(layer as int),
            self.is_layer_matrix(layer as int, r.0@),
    {
        let n = self.node_layers[layer].len();
        assert(self.ids()[layer as int] == self.node_layers@[layer as int]@);
        let has_upper = layer > 0;
        let has_lower = layer + 1 < self.node_layers.len();
        let ghost ni = n as int;
        let ghost cost = |perm: Seq<usize>| self.layer_cost(layer as int, perm);
        let ghost up = self.side_edges(layer as int, true);
        let ghost down = self.side_edges(layer as int, false);
        proof {
            if has_upper {
                lemma_invert_crossings(self.ranked_edges(layer - 1));
            }
            assert forall|perm: Seq<usize>| is_permutation(perm, ni) implies i64::MIN <= #[trigger] cost(perm)
                <= i64::MAX by {
                if has_upper {
                    self.lemma_side_weight(layer as int, true);
                    lemma_order_cost_range(up, perm);
                    let tw = total_weight(up);
                    assert(tw * tw <= 0x7fff_ffff * 0x7fff_ffff) by (nonlinear_arith)
                        requires 0 <= tw <= 0x7fff_ffff,
                    ;
                }
                if has_lower {
                    self.lemma_side_weight(layer as int, false);
                    lemma_order_cost_range(down, perm);
                    let tw = total_weight(down);
                    assert(tw * tw <= 0x7fff_ffff * 0x7fff_ffff) by (nonlinear_arith)
                        requires 0 <= tw <= 0x7fff_ffff,
                    ;
                }
            }
        }
        if has_upper && has_lower {
            let (a, ca) = self.side_problem(layer, true);
            let (b, cb) = self.side_problem(layer, false);
            assert(0x7fff_ffff * 0x7fff_ffff + 0x7fff_ffff * 0x7fff_ffff <= i64::MAX);
            let sum_matrix = add_matrix(&a, &b, n);
            proof {
                lemma_pairwise_tracks_crossings(up, ni, a@);
                lemma_pairwise_tracks_crossings(down, ni, b@);
                lemma_tracks_sum(
                    a@,
                    b@,
                    sum_matrix@,
                    ni,
                    |perm: Seq<usize>| order_cost(up, perm),
                    |perm: Seq<usize>| order_cost(down, perm),
                    cost,
                );
            }
            (sum_matrix, (ca + cb) as i64)
        } else if has_upper {
            let (a, ca) = self.side_problem(layer, true);
            proof {
                lemma_pairwise_tracks_crossings(up, ni, a@);
                lemma_tracks_ext(a@, ni, |perm: Seq<usize>| order_cost(up, perm), cost);
            }
            (a, ca as i64)
        } else if has_lower {
            let (b, cb) = self.side_problem(layer, false);
            proof {
                lemma_pairwise_tracks_crossings(down, ni, b@);
                lemma_tracks_ext(b@, ni, |perm: Seq<usize>| order_cost(down, perm), cost);
            }
            (b, cb as i64)
        } else {
            let zeros = zero_matrix(n);
            proof {
                assert forall|perm: Seq<usize>, j: int|
                    is_permutation(perm, ni) && 0 <= j && j + 1 < ni implies #[trigger] cost(
                    swap_adjacent(perm, j),
                ) == cost(perm) - zeros@[perm[j] as int]@[perm[j + 1] as int] by {
                    assert(perm[j] < ni && perm[j + 1] < ni);
                }
            }
            (zeros, 0)
        }
    }

    /// Each side's edges lie inside the layers and stay within the weight bound.
    proof fn lemma_side_weight(&self, layer: int, upper: bool)
        requires
            self.wf(),
            0 <= layer < self.layer_count(),
            upper ==> layer > 0,
            !upper ==> layer + 1 < self.layer_count(),
        ensures
            0 <= total_weight(self.side_edges(layer, upper)) <= MAX_LAYER_WEIGHT,
    {
        if upper {
            self.lemma_set_weight(layer - 1);
            lemma_invert_shape(self.ranked_edges(layer - 1), self.layer_size(layer - 1), self.layer_size(layer));
        } else {
            self.lemma_set_weight(layer);
        }
    }
}

/// `order` rearranged by `perm`.
fn compose_order(order: &Vec<usize>, perm: &Vec<usize>, n: usize) -> (r: Vec<usize>)
    requires
        order_within(order@, n as int),
        is_permutation(order@, n as int),
        is_permutation(perm@, n as int),
    ensures
        r@ == compose(order@, perm@),
        order_within(r@, n as int),
        is_permutation(r@, n as int),
{
    let mut r: Vec<usize> = Vec::new();
    let mut k: usize = 0;
    while k < n
        invariant
            k <= n,
            order_within(order@, n as int),
            is_permutation(perm@, n as int),
            r@ == compose(order@, perm@).take(k as int),
        decreases n - k,
    {
        assert(perm@[k as int] < n);
        r.push(order[perm[k]]);
        k = k + 1;
        assert(r@ =~= compose(order@, perm@).take(k as int));
    }
    assert(compose(order@, perm@).take(n as int) =~= compose(order@, perm@));
    assert forall|k: int, m: int| 0 <= k < m < n implies #[trigger] r@[k] != #[trigger] r@[m] by {
        assert(perm@[k] != perm@[m]);
        if perm@[k] < perm@[m] {
            assert(order@[perm@[k] as int] != order@[perm@[m] as int]);
        } else {
            assert(order@[perm@[m] as int] != order@[perm@[k] as int]);
        }
    }
    r
}

/// An `n` by `n` matrix of zeros.
fn zero_matrix(n: usize) -> (r: Vec<Vec<i64>>)
    ensures
        is_square(r@, n as int),
        forall|a: int, b: int| 0 <= a < n && 0 <= b < n ==> #[trigger] r@[a]@[b] == 0,
{
    let mut r: Vec<Vec<i64>> = Vec::new();
    let mut a: usize = 0;
    while a < n
        invariant
            a <= n,
            r@.len() == a,
            forall|x: int| 0 <= x < a ==> (#[trigger] r@[x])@.len() == n,
            forall|x: int, y: int| 0 <= x < a && 0 <= y < n ==> #[trigger] r@[x]@[y] == 0,
        decreases n - a,
    {
        let mut row: Vec<i64> = Vec::new();
        let mut b: usize = 0;
        while b < n
            invariant
                b <= n,
                row@.len() == b,
                forall|y: int| 0 <= y < b ==> #[trigger] row@[y] == 0,
            decreases n - b,
        {
            row.push(0);
            b = b + 1;
        }
        r.push(row);
        a = a + 1;
    }
    r
}

impl<T> LayoutOptimizer<T> {
    /// Builds an optimizer over `node_layers` (each an ordered layer of distinct
    /// identifiers) and `edges` (set `s` joining layer `s` to layer `s + 1`), after checking
    /// that there is one edge set fewer than layers, that every endpoint is in its layer, and
    /// that all weights together stay within `MAX_LAYER_WEIGHT`.
    pub fn new(node_layers: Vec<Vec<T>>, edges: Vec<Vec<(T, T, usize)>>) -> (r: Result<
        Self,
        OptimizerError,
    >) where T: PartialEq
        requires
            vstd::laws_eq::obeys_concrete_eq::<T>(),
        ensures
            r is Ok <==> layers_consistent(node_layers@, edges@) && all_edge_weight(edges@)
                <= MAX_LAYER_WEIGHT,
            r matches Err(e) ==> {
                ||| !layers_consistent(node_layers@, edges@) && layer_error(node_layers@, edges@, e)
                ||| layers_consistent(node_layers@, edges@) && all_edge_weight(edges@) > MAX_LAYER_WEIGHT
                    && e == OptimizerError::EdgeWeightLimit { limit: MAX_LAYER_WEIGHT }
            },
            r matches Ok(o) ==> {
                &&& o.wf()
                &&& o.ids() == layers_view(node_layers@)
                &&& forall|l: int|
                    0 <= l < node_layers@.len() ==> #[trigger] o.orders()[l] == identity(
                        node_layers@[l]@.len() as int,
                    )
                &&& forall|s: int|
                    0 <= s < edges@.len() ==> #[trigger] o.edge_sets()[s] == mapped_edges(
                        node_layers@[s]@,
                        node_layers@[s + 1]@,
                        edges@[s]@,
                    )
            },
    {
        match validate_layers(&node_layers, &edges) {
            Err(e) => {
                return Err(e);
            },
            Ok(()) => {},
        }
        if !weights_within_limit(&edges) {
            return Err(OptimizerError::EdgeWeightLimit { limit: MAX_LAYER_WEIGHT });
        }
        let layer_count = node_layers.len();
        let mut sets: Vec<Vec<IndexEdge>> = Vec::new();
        let mut s: usize = 0;
        while s < edges.len()
            invariant
                s <= edges@.len(),
                edges@.len() + 1 == node_layers@.len(),
                layer_count == node_layers@.len(),
                layers_consistent(node_layers@, edges@),
                vstd::laws_eq::obeys_concrete_eq::<T>(),
                all_edge_weight(edges@) <= MAX_LAYER_WEIGHT,
                sets@.len() == s,
                forall|t: int|
                    0 <= t < s ==> (#[trigger] sets@[t])@ == mapped_edges(
                        node_layers@[t]@,
                        node_layers@[t + 1]@,
                        edges@[t]@,
                    ),
                forall|t: int|
                    0 <= t < s ==> edges_within(
                        (#[trigger] sets@[t])@,
                        node_layers@[t]@.len() as int,
                        node_layers@[t + 1]@.len() as int,
                    ),
                weight_prefix(Seq::new(sets@.len(), |t: int| sets@[t]@), s as int)
                    == all_edge_weight(edges@.take(s as int)),
            decreases edges@.len() - s,
        {
            assert(endpoints_present(node_layers@[s as int]@, node_layers@[s + 1]@, edges@[s as int]@));
            let mapped = map_edges(&node_layers[s], &node_layers[s + 1], &edges[s]);
            match mapped {
                Some(m) => {
                    let ghost old_view = Seq::new(sets@.len(), |t: int| sets@[t]@);
                    proof {
                        lemma_mapped_shape(
                            node_layers@[s as int]@,
                            node_layers@[s + 1]@,
                            edges@[s as int]@,
                        );
                    }
                    sets.push(m);
                    proof {
                        let new_view = Seq::new(sets@.len(), |t: int| sets@[t]@);
                        assert(new_view =~= old_view.push(m@));
                        lemma_weight_prefix_push(old_view, m@, s as int);
                        assert(edges@.take(s + 1).drop_last() =~= edges@.take(s as int));
                        assert(edges@.take(s + 1).last() == edges@[s as int]);
                    }
                },
                None => {
                    return Err(OptimizerError::EdgeLayerMismatch { edges: edges.len(), layers: layer_count });
                },
            }
            s = s + 1;
        }
        let mut orders: Vec<Vec<usize>> = Vec::new();
        let mut l: usize = 0;
        while l < layer_count
            invariant
                l <= layer_count,
                layer_count == node_layers@.len(),
                orders@.len() == l,
                forall|t: int|
                    0 <= t < l ==> (#[trigger] orders@[t])@ == identity(node_layers@[t]@.len() as int),
                forall|t: int|
                    0 <= t < l ==> is_permutation((#[trigger] orders@[t])@, node_layers@[t]@.len() as int),
            decreases layer_count - l,
        {
            let order = identity_order(node_layers[l].len());
            orders.push(order);
            l = l + 1;
        }
        let r = LayoutOptimizer { node_layers, orders, edges: sets };
        proof {
            assert(edges@.take(edges@.len() as int) =~= edges@);
            assert(r.edge_sets() =~= Seq::new(r.edges@.len(), |t: int| r.edges@[t]@));
            assert forall|t: int| 0 <= t < r.layer_count() implies order_within(
                #[trigger] r.orders()[t],
                r.layer_size(t),
            ) by {
                assert(r.orders()[t] == identity(r.layer_size(t)));
            }
            assert forall|t: int| 0 <= t < r.layer_count() implies is_permutation(
                #[trigger] r.orders()[t],
                r.layer_size(t),
            ) by {
                assert(r.orders()[t] == r.orders@[t]@);
            }
            assert forall|t: int| 0 <= t < r.edge_sets().len() implies edges_within(
                #[trigger] r.edge_sets()[t],
                r.layer_size(t),
                r.layer_size(t + 1),
            ) by {
                assert(r.edge_sets()[t] == r.edges@[t]@);
            }
            assert(r.ids() =~= layers_view(r.node_layers@));
        }
        Ok(r)
    }

    /// The weighted crossings of the whole drawing: over each pair of neighbouring layers,
    /// the crossings of its edges in the layers' current orders.
    pub fn count_crossings(&self) -> (r: u64)
        requires
            self.wf(),
        ensures
            r == self.total_crossings(),
    {
        let pairs = self.node_layers.len() - 1;
        let mut total: u64 = 0;
        let mut s: usize = 0;
        let ghost sets = self.edge_sets();
        proof {
            assert forall|t: int| 0 <= t < sets.len() implies 0 <= #[trigger] total_weight(sets[t]) by {
                lemma_crossings_bounded(sets[t]);
            }
            lemma_weight_prefix_nonneg(sets, pairs as int);
        }
        while s < pairs
            invariant
                self.wf(),
                sets == self.edge_sets(),
                pairs == self.layer_count() - 1,
                s <= pairs,
                forall|t: int| 0 <= t < sets.len() ==> 0 <= #[trigger] total_weight(sets[t]),
                total == sum(s as int, |t: int| self.pair_crossings(t)),
                total <= weight_prefix(sets, s as int) * weight_prefix(sets, s as int),
                0 <= weight_prefix(sets, s as int) <= weight_prefix(sets, pairs as int),
            decreases pairs - s,
        {
            let c = self.count_pair(s);
            proof {
                self.lemma_set_weight(s as int);
                lemma_crossings_bounded(self.ranked_edges(s as int));
                lemma_weight_prefix_parts(sets, pairs as int, s as int);
                lemma_weight_prefix_mono(sets, s + 1, pairs as int);
                let p = weight_prefix(sets, s as int);
                let w = total_weight(sets[s as int]);
                let q = weight_prefix(sets, s + 1);
                assert(q == p + w);
                assert(total + c <= q * q) by (nonlinear_arith)
                    requires
                        total <= p * p,
                        c <= w * w,
                        0 <= p,
                        0 <= w,
                        q == p + w,
                ;
                assert(q * q <= 0x7fff_ffff * 0x7fff_ffff) by (nonlinear_arith)
                    requires
                        0 <= q <= 0x7fff_ffff,
                ;
            }
            total = total + c;
            s = s + 1;
        }
        total
    }

    /// The weighted crossings between layer `layer_index` and its neighbours.
    pub fn count_layer_crossings(&self, layer_index: usize) -> (r: i64)
        requires
            self.wf(),
            layer_index < self.layer_count(),
        ensures
            r == self.layer_crossings(layer_index as int),
    {
        self.count_layer(layer_index)
    }

    /// The node identifiers of each layer in its current order.
    pub fn get_nodes(&self) -> (r: Vec<Vec<T>>) where T: Clone
        requires
            self.wf(),
        ensures
            r@.len() == self.layer_count(),
            forall|l: int|
                0 <= l < self.layer_count() ==> (#[trigger] r@[l])@.len() == self.layer_size(l),
            forall|l: int, k: int|
                0 <= l < self.layer_count() && 0 <= k < self.layer_size(l) ==> cloned(
                    self.nodes()[l][k],
                    #[trigger] r@[l]@[k],
                ),
    {
        let mut r: Vec<Vec<T>> = Vec::new();
        let mut l: usize = 0;
        while l < self.node_layers.len()
            invariant
                self.wf(),
                l <= self.layer_count(),
                r@.len() == l,
                forall|x: int| 0 <= x < l ==> (#[trigger] r@[x])@.len() == self.layer_size(x),
                forall|x: int, k: int|
                    0 <= x < l && 0 <= k < self.layer_size(x) ==> cloned(
                        self.nodes()[x][k],
                        #[trigger] r@[x]@[k],
                    ),
            decreases self.layer_count() - l,
        {
            let ids = &self.node_layers[l];
            let order = &self.orders[l];
            assert(self.ids()[l as int] == ids@);
            assert(self.orders()[l as int] == order@);
            assert(order_within(order@, ids@.len() as int));
            let mut layer: Vec<T> = Vec::new();
            let mut k: usize = 0;
            while k < order.len()
                invariant
                    k <= order@.len(),
                    order_within(order@, ids@.len() as int),
                    layer@.len() == k,
                    forall|j: int| 0 <= j < k ==> cloned(ids@[order@[j] as int], #[trigger] layer@[j]),
                decreases order@.len() - k,
            {
                layer.push(ids[order[k]].clone());
                k = k + 1;
            }
            r.push(layer);
            l = l + 1;
        }
        r
    }

    /// One Metropolis run on layer `layer_index` against its neighbours, deciding
    /// non-improving moves with `accept(0, _)`; returns the layer's crossings in its new
    /// order.
    pub fn swap_nodes<F: Fn(usize, i64) -> bool>(
        &mut self,
        layer_index: usize,
        max_iterations: usize,
        accept: &F,
    ) -> (r: i64)
        requires
            old(self).wf(),
            layer_index < old(self).layer_count(),
            forall|s: usize, d: i64| #[trigger] accept.requires((s, d)),
        ensures
            final(self).wf(),
            old(self).rearranged_at(&*final(self), layer_index as int),
            exists|perm: Seq<usize>|
                is_permutation(perm, old(self).layer_size(layer_index as int))
                    && #[trigger] final(self).orders()[layer_index as int] == compose(
                    old(self).orders()[layer_index as int],
                    perm,
                ),
            r == final(self).layer_crossings(layer_index as int),
            greedy(*accept) ==> r <= old(self).layer_crossings(layer_index as int),
            greedy(*accept) ==> exists|matrix: Seq<Vec<i64>>, perm: Seq<usize>|
                #![trigger old(self).is_layer_matrix(layer_index as int, matrix), compose(old(self).orders()[layer_index as int], perm)]
                {
                    &&& old(self).is_layer_matrix(layer_index as int, matrix)
                    &&& final(self).orders()[layer_index as int] == compose(
                        old(self).orders()[layer_index as int],
                        perm,
                    )
                    &&& (perm, r) == greedy_runs(
                        matrix,
                        old(self).layer_size(layer_index as int),
                        Seq::empty(),
                        (
                            identity(old(self).layer_size(layer_index as int)),
                            old(self).layer_crossings(layer_index as int) as i64,
                        ),
                        max_iterations as nat,
                        1 as nat,
                    )
                },
    {
        self.rearrange_layer(layer_index, 1, max_iterations, accept, &None)
    }

    /// `steps` Metropolis runs on layer `layer_index`, run `s` deciding non-improving
    /// moves with `accept(s, _)` (a cooling schedule); returns the layer's crossings in its
    /// new order.
    pub fn cooldown<F: Fn(usize, i64) -> bool>(
        &mut self,
        steps: usize,
        max_iterations: usize,
        layer_index: usize,
        accept: &F,
    ) -> (r: i64)
        requires
            old(self).wf(),
            layer_index < old(self).layer_count(),
            forall|s: usize, d: i64| #[trigger] accept.requires((s, d)),
        ensures
            final(self).wf(),
            old(self).rearranged_at(&*final(self), layer_index as int),
            exists|perm: Seq<usize>|
                is_permutation(perm, old(self).layer_size(layer_index as int))
                    && #[trigger] final(self).orders()[layer_index as int] == compose(
                    old(self).orders()[layer_index as int],
                    perm,
                ),
            r == final(self).layer_crossings(layer_index as int),
            greedy(*accept) ==> r <= old(self).layer_crossings(layer_index as int),
            greedy(*accept) ==> exists|matrix: Seq<Vec<i64>>, perm: Seq<usize>|
                #![trigger old(self).is_layer_matrix(layer_index as int, matrix), compose(old(self).orders()[layer_index as int], perm)]
                {
                    &&& old(self).is_layer_matrix(layer_index as int, matrix)
                    &&& final(self).orders()[layer_index as int] == compose(
                        old(self).orders()[layer_index as int],
                        perm,
                    )
                    &&& (perm, r) == greedy_runs(
                        matrix,
                        old(self).layer_size(layer_index as int),
                        Seq::empty(),
                        (
                            identity(old(self).layer_size(layer_index as int)),
                            old(self).layer_crossings(layer_index as int) as i64,
                        ),
                        max_iterations as nat,
                        steps as nat,
                    )
                },
    {
        self.rearrange_layer(layer_index, steps, max_iterations, accept, &None)
    }

    /// `passes` passes, each cooling every layer in turn from the first to the last;
    /// returns the last layer's crossings after the last pass (0 when there is none).
    pub fn optimize<F: Fn(usize, i64) -> bool>(
        &mut self,
        steps: usize,
        max_iterations: usize,
        passes: usize,
        accept: &F,
    ) -> (r: i64)
        requires
            old(self).wf(),
            forall|s: usize, d: i64| #[trigger] accept.requires((s, d)),
        ensures
            final(self).wf(),
            final(self).ids() == old(self).ids(),
            final(self).edge_sets() == old(self).edge_sets(),
            forall|l: int|
                0 <= l < final(self).layer_count() ==> is_permutation(
                    #[trigger] final(self).orders()[l],
                    final(self).layer_size(l),
                ),
            passes > 0 ==> r == final(self).layer_crossings(final(self).layer_count() - 1),
            passes == 0 ==> r == 0,
    {
        let mut count: i64 = 0;
        let mut pass: usize = 0;
        let ghost ids = self.ids();
        let ghost sets = self.edge_sets();
        while pass < passes
            invariant
                self.wf(),
                self.ids() == ids,
                self.edge_sets() == sets,
                forall|s: usize, d: i64| #[trigger] accept.requires((s, d)),
                pass <= passes,
                pass > 0 ==> count == self.layer_crossings(self.layer_count() - 1),
                pass == 0 ==> count == 0,
            decreases passes - pass,
        {
            let mut l: usize = 0;
            let layer_count = self.node_layers.len();
            while l < layer_count
                invariant
                    self.wf(),
                    self.ids() == ids,
                    self.edge_sets() == sets,
                    layer_count == self.layer_count(),
                    forall|s: usize, d: i64| #[trigger] accept.requires((s, d)),
                    l <= layer_count,
                    l > 0 ==> count == self.layer_crossings(l - 1),
                    l == 0 && pass > 0 ==> count == self.layer_crossings(self.layer_count() - 1),
                    l == 0 && pass == 0 ==> count == 0,
                decreases layer_count - l,
            {
                count = self.cooldown(steps, max_iterations, l, accept);
                l = l + 1;
            }
            pass = pass + 1;
        }
        count
    }
}

proof fn lemma_weight_prefix_mono(sets: Seq<Seq<IndexEdge>>, j: int, k: int)
    requires
        0 <= j <= k <= sets.len(),
        forall|t: int| 0 <= t < sets.len() ==> 0 <= #[trigger] total_weight(sets[t]),
    ensures
        weight_prefix(sets, j) <= weight_prefix(sets, k),
    decreases k - j,
{
    if j < k {
        lemma_weight_prefix_mono(sets, j, k - 1);
    }
}

impl<T> LayoutOptimizer<T> {
    /// The number of layers.
    pub(crate) fn layers(&self) -> (r: usize)
        ensures
            r == self.layer_count(),
    {
        self.node_layers.len()
    }

    /// The number of nodes of layer `l`.
    pub(crate) fn layer_len(&self, l: usize) -> (r: usize)
        requires
            self.wf(),
            l < self.layer_count(),
        ensures
            r == self.layer_size(l as int),
    {
        assert(self.ids()[l as int] == self.node_layers@[l as int]@);
        self.node_layers[l].len()
    }

    /// The current order of layer `l`.
    pub(crate) fn order_at(&self, l: usize) -> (r: &Vec<usize>)
        requires
            self.wf(),
            l < self.layer_count(),
        ensures
            r@ == self.orders()[l as int],
    {
        assert(self.orders()[l as int] == self.orders@[l as int]@);
        &self.orders[l]
    }

    /// Replaces the order of layer `l`.
    pub(crate) fn set_order(&mut self, l: usize, order: Vec<usize>)
        requires
            old(self).wf(),
            l < old(self).layer_count(),
            order_within(order@, old(self).layer_size(l as int)),
            is_permutation(order@, old(self).layer_size(l as int)),
        ensures
            final(self).wf(),
            old(self).rearranged_at(&*final(self), l as int),
            final(self).orders()[l as int] == order@,
    {
        let ghost before = *self;
        self.orders.set(l, order);
        proof {
            assert(self.orders() =~= before.orders().update(l as int, order@));
            assert(self.ids() =~= before.ids());
            assert(self.edge_sets() =~= before.edge_sets());
        }
    }
}

/// Checks that the total weight of `edges`, over all sets, is at most `MAX_LAYER_WEIGHT`.
pub fn weights_within_limit<T>(edges: &Vec<Vec<(T, T, usize)>>) -> (r: bool)
    ensures
        r == (all_edge_weight(edges@) <= MAX_LAYER_WEIGHT),
{
    let mut total: usize = 0;
    let mut s: usize = 0;
    while s < edges.len()
        invariant
            s <= edges@.len(),
            total == all_edge_weight(edges@.take(s as int)),
            total <= MAX_LAYER_WEIGHT,
        decreases edges@.len() - s,
    {
        let set = &edges[s];
        let ghost base = total;
        let mut p: usize = 0;
        while p < set.len()
            invariant
                p <= set@.len(),
                s < edges@.len(),
                *set == edges@[s as int],
                base == all_edge_weight(edges@.take(s as int)),
                total == base + edge_weight_total(set@.take(p as int)),
                total <= MAX_LAYER_WEIGHT,
            decreases set@.len() - p,
        {
            proof {
                assert(set@.take(p + 1).drop_last() =~= set@.take(p as int));
            }
            if set[p].2 > MAX_LAYER_WEIGHT - total {
                proof {
                    lemma_weight_total_prefix(set@, p + 1, set@.len() as int);
                    lemma_all_weight_parts(edges@, s as int);
                    assert(set@.take(set@.len() as int) =~= set@);
                    assert(set@.take(p + 1).last() == set@[p as int]);
                }
                return false;
            }
            total = total + set[p].2;
            p = p + 1;
        }
        proof {
            assert(set@.take(set@.len() as int) =~= set@);
            assert(edges@.take(s + 1).drop_last() =~= edges@.take(s as int));
            assert(edges@.take(s + 1).last() == *set);
        }
        s = s + 1;
    }
    assert(edges@.take(edges@.len() as int) =~= edges@);
    true
}

proof fn lemma_weight_total_prefix<T>(set: Seq<(T, T, usize)>, j: int, k: int)
    requires
        0 <= j <= k <= set.len(),
    ensures
        edge_weight_total(set.take(j)) <= edge_weight_total(set.take(k)),
    decreases k - j,
{
    if j < k {
        lemma_weight_total_prefix(set, j, k - 1);
        assert(set.take(k).drop_last() =~= set.take(k - 1));
    }
    assert(set.take(set.len() as int) =~= set);
}

/// The weight of the first `s` sets plus that of set `s` stays below the total.
proof fn lemma_all_weight_parts<T>(edges: Seq<Vec<(T, T, usize)>>, s: int)
    requires
        0 <= s < edges.len(),
    ensures
        all_edge_weight(edges.take(s)) + edge_weight_total(edges[s]@) <= all_edge_weight(edges),
{
    lemma_all_weight_mono(edges, s + 1, edges.len() as int);
    assert(edges.take(s + 1).drop_last() =~= edges.take(s));
    assert(edges.take(edges.len() as int) =~= edges);
}

proof fn lemma_all_weight_mono<T>(edges: Seq<Vec<(T, T, usize)>>, j: int, k: int)
    requires
        0 <= j <= k <= edges.len(),
    ensures
        all_edge_weight(edges.take(j)) <= all_edge_weight(edges.take(k)),
    decreases k - j,
{
    if j < k {
        lemma_all_weight_mono(edges, j, k - 1);
        assert(edges.take(k).drop_last() =~= edges.take(k - 1));
        lemma_edge_weight_nonneg(edges.take(k).last()@);
    }
}

proof fn lemma_edge_weight_nonneg<T>(set: Seq<(T, T, usize)>)
    ensures
        0 <= edge_weight_total(set),
    decreases set.len(),
{
    if set.len() > 0 {
        lemma_edge_weight_nonneg(set.drop_last());
    }
}

/// One Metropolis run on `swappable_nodes` against the fixed `static_nodes`, deciding
/// non-improving moves with `accept(0, _)` and never exchanging neighbours across one of
/// `borders`; returns the new order and its crossings, kept up to date move by move.
pub fn reduce_crossings<T: PartialEq + Clone, F: Fn(usize, i64) -> bool>(
    swappable_nodes: &Vec<T>,
    static_nodes: &Vec<T>,
    edges: &Vec<(T, T, usize)>,
    iterations: usize,
    accept: &F,
    borders: &Option<Vec<usize>>,
) -> (r: (Vec<T>, i64))
    requires
        vstd::laws_eq::obeys_concrete_eq::<T>(),
        endpoints_present(swappable_nodes@, static_nodes@, edges@),
        edge_weight_total(edges@) <= MAX_LAYER_WEIGHT,
        forall|s: usize, d: i64| #[trigger] accept.requires((s, d)),
    ensures
        exists|perm: Seq<usize>|
            {
                &&& is_permutation(perm, swappable_nodes@.len() as int)
                &&& keeps_borders(identity(swappable_nodes@.len() as int), perm, border_list(*borders))
                &&& r.0@.len() == perm.len()
                &&& forall|k: int|
                    0 <= k < perm.len() ==> cloned(
                        swappable_nodes@[#[trigger] perm[k] as int],
                        r.0@[k],
                    )
                &&& r.1 == order_cost(mapped_edges(swappable_nodes@, static_nodes@, edges@), perm)
                &&& greedy(*accept) ==> exists|matrix: Seq<Vec<i64>>|
                    #[trigger] is_pairwise_matrix(
                        matrix,
                        swappable_nodes@.len() as int,
                        mapped_edges(swappable_nodes@, static_nodes@, edges@),
                    ) && (perm, r.1) == greedy_run(
                        matrix,
                        swappable_nodes@.len() as int,
                        border_list(*borders),
                        (
                            identity(swappable_nodes@.len() as int),
                            crossing_count(mapped_edges(swappable_nodes@, static_nodes@, edges@))
                                as i64,
                        ),
                        iterations as nat,
                    )
            },
        greedy(*accept) ==> r.1 <= crossing_count(
            mapped_edges(swappable_nodes@, static_nodes@, edges@),
        ),
{
    let n = swappable_nodes.len();
    let m = static_nodes.len();
    proof {
        lemma_mapped_shape(swappable_nodes@, static_nodes@, edges@);
    }
    let mapped = match map_edges(swappable_nodes, static_nodes, edges) {
        Some(e) => e,
        None => {
            return (Vec::new(), 0);
        },
    };
    proof {
        lemma_crossings_bounded(mapped@);
        let tw = total_weight(mapped@);
        assert(tw * tw <= 0x7fff_ffff * 0x7fff_ffff) by (nonlinear_arith)
            requires
                0 <= tw <= 0x7fff_ffff,
        ;
    }
    let count = count_index_crossings(n, m, &mapped);
    let matrix = get_pairwise_matrix(n, m, &mapped);
    let (perm, new_count) = cooldown(n, &matrix, iterations, 1, accept, count as i64, borders);
    proof {
        assert forall|p: int| 0 <= p < mapped@.len() implies (#[trigger] mapped@[p]).0 < n
            && mapped@[p].1 < usize::MAX as int + 1 by {}
        lemma_pairwise_tracks_crossings(mapped@, n as int, matrix@);
        lemma_order_cost_bounded(mapped@, n as int);
        lemma_identity_cost(mapped@, n as int);
        let cost = |order: Seq<usize>| order_cost(mapped@, order);
        assert(tracks(matrix@, n as int, cost));
        assert(cost(identity(n as int)) == count);
        if greedy(*accept) {
            assert(greedy_runs(
                matrix@,
                n as int,
                border_list(*borders),
                greedy_run(matrix@, n as int, border_list(*borders), (identity(n as int), count as i64), iterations as nat),
                iterations as nat,
                0,
            ) == greedy_run(matrix@, n as int, border_list(*borders), (identity(n as int), count as i64), iterations as nat));
        }
    }
    let mut new_nodes: Vec<T> = Vec::new();
    let mut k: usize = 0;
    while k < n
        invariant
            k <= n,
            n == swappable_nodes@.len(),
            is_permutation(perm@, n as int),
            new_nodes@.len() == k,
            forall|j: int|
                0 <= j < k ==> cloned(swappable_nodes@[#[trigger] perm@[j] as int], new_nodes@[j]),
        decreases n - k,
    {
        assert(perm@[k as int] < n);
        new_nodes.push(swappable_nodes[perm[k]].clone());
        k = k + 1;
    }
    (new_nodes, new_count)
}

} // verus!
