use vstd::prelude::*;

use crate::aggregation::aggregate_pairwise_matrix;
use crate::error::OptimizerError;
use crate::hierarchy::{
    aligned, all_positive, get_borders, group_end_list, groups_in_order,
    nonempty_end_list, nonempty_group_ends,
    is_borders, lemma_groups_in_order_entries, lemma_prefix_sum_monotone, levels_fit, levels_view,
    reorder_hierarchy, reorder_index_groups, reordered_hierarchy, total, valid_hierarchy,
    validate_hierarchy,
};
use crate::layers::order_within;
use crate::mapping::{layer_error, layers_consistent, mapped_edges};
use crate::optimizer::{all_edge_weight, compose, layers_view, LayoutOptimizer};
use crate::pairwise::MAX_LAYER_WEIGHT;
use crate::reducer::{border_list, cooldown, greedy, identity, is_permutation, keeps_borders};

verus! {

/// A layout optimizer whose layers carry a hierarchy of nested groups, from finest to
/// coarsest; groups stay contiguous while nodes and groups are rearranged.
pub struct HierarchyOptimizer<T> {
    optimizer: LayoutOptimizer<T>,
    hierarchy: Vec<Vec<Vec<usize>>>,
}

impl<T> HierarchyOptimizer<T> {
    /// The underlying layers, orders and edges.
    pub closed spec fn layout(&self) -> LayoutOptimizer<T> {
        self.optimizer
    }

    /// For each layer, its group sizes level by level, finest first.
    pub closed spec fn hierarchy(&self) -> Seq<Seq<Seq<usize>>> {
        Seq::new(self.hierarchy@.len(), |l: int| levels_view(self.hierarchy@[l]@))
    }

    pub open spec fn wf(&self) -> bool {
        &&& self.layout().wf()
        &&& self.hierarchy().len() == self.layout().layer_count()
    }

    /// `other` differs from `self` at most in the order and the hierarchy of `layer`.
    pub open spec fn changed_only_at(&self, other: &Self, layer: int) -> bool {
        &&& self.layout().rearranged_at(&other.layout(), layer)
        &&& other.hierarchy().len() == self.hierarchy().len()
        &&& forall|l: int|
            0 <= l < self.hierarchy().len() && l != layer ==> #[trigger] other.hierarchy()[l]
                == self.hierarchy()[l]
    }

    /// The borders that keep the finest groups of `layer` together, when it has a valid
    /// hierarchy: the last node of each nonempty finest group.
    pub open spec fn node_borders(&self, layer: int) -> Seq<usize> {
        let levels = self.hierarchy()[layer];
        if levels.len() > 0 && valid_hierarchy(self.layout().layer_size(layer), levels) {
            nonempty_group_ends(levels[0], levels[0].len() as int)
        } else {
            Seq::empty()
        }
    }

    /// The groups of level `g` of `layer` can be moved: the layer's hierarchy is valid, that
    /// level has groups and none is empty, and the layer has at most `2^32 - 1` nodes.
    pub open spec fn movable(&self, layer: int, g: int) -> bool {
        let levels = self.hierarchy()[layer];
        &&& valid_hierarchy(self.layout().layer_size(layer), levels)
        &&& levels[g].len() > 0
        &&& all_positive(levels[g])
        &&& self.layout().layer_size(layer) <= 0xffff_ffff
    }

    /// The outcome of a group move at level `g` of `layer` from `self` to `other`: the
    /// groups of level `g` are laid out in an order `sigma` that moves no group out of its
    /// coarser group, the nodes follow their groups, and the hierarchy is reordered.
    pub open spec fn group_move(&self, other: &Self, layer: int, g: int) -> bool {
        let levels = self.hierarchy()[layer];
        exists|sigma: Seq<usize>|
            {
                &&& is_permutation(sigma, levels[g].len() as int)
                &&& (g + 1 < levels.len() ==> exists|b: Seq<usize>|
                    is_borders(levels[g], levels[g + 1], b) && keeps_borders(
                        identity(levels[g].len() as int),
                        sigma,
                        b,
                    ))
                &&& #[trigger] other.hierarchy()[layer] == reordered_hierarchy(levels, g, sigma)
                &&& other.layout().orders()[layer] == groups_in_order(
                    self.layout().orders()[layer],
                    levels[g],
                    sigma,
                )
            }
    }
}

impl<T> HierarchyOptimizer<T> {
    /// Builds an optimizer over `node_layers`, `edges` and, for each layer, its hierarchy
    /// of group sizes (finest level first; empty for a layer without groups), after the
    /// checks of `LayoutOptimizer::new`, that there is one hierarchy per layer, and that
    /// each hierarchy is valid for its layer.
    pub fn new(
        node_layers: Vec<Vec<T>>,
        edges: Vec<Vec<(T, T, usize)>>,
        hierarchy: Vec<Vec<Vec<usize>>>,
    ) -> (r: Result<Self, OptimizerError>) where T: PartialEq
        requires
            vstd::laws_eq::obeys_concrete_eq::<T>(),
        ensures
            r is Ok <==> {
                &&& layers_consistent(node_layers@, edges@)
                &&& all_edge_weight(edges@) <= MAX_LAYER_WEIGHT
                &&& hierarchy@.len() == node_layers@.len()
                &&& forall|l: int|
                    0 <= l < hierarchy@.len() ==> valid_hierarchy(
                        node_layers@[l]@.len() as int,
                        levels_view(#[trigger] hierarchy@[l]@),
                    )
            },
            r matches Err(e) ==> {
                ||| !layers_consistent(node_layers@, edges@) && layer_error(node_layers@, edges@, e)
                ||| layers_consistent(node_layers@, edges@) && all_edge_weight(edges@) > MAX_LAYER_WEIGHT
                    && e == OptimizerError::EdgeWeightLimit { limit: MAX_LAYER_WEIGHT }
                ||| layers_consistent(node_layers@, edges@) && all_edge_weight(edges@) <= MAX_LAYER_WEIGHT
                    && hierarchy@.len() != node_layers@.len()
                    && e == OptimizerError::HierarchyMismatch {
                    hierarchy: hierarchy@.len() as usize,
                    layers: node_layers@.len() as usize,
                }
                ||| layers_consistent(node_layers@, edges@) && all_edge_weight(edges@) <= MAX_LAYER_WEIGHT
                    && hierarchy@.len() == node_layers@.len() && exists|l: int|
                    0 <= l < hierarchy@.len() && !valid_hierarchy(
                        node_layers@[l]@.len() as int,
                        levels_view(#[trigger] hierarchy@[l]@),
                    ) && (forall|m: int|
                        0 <= m < l ==> valid_hierarchy(
                            node_layers@[m]@.len() as int,
                            levels_view(#[trigger] hierarchy@[m]@),
                        )) && match e {
                        OptimizerError::HierarchySizeMismatch { layer_index: li, .. } => li == l,
                        OptimizerError::HierarchyMisaligned { layer_index: li, .. } => li == l,
                        _ => false,
                    }
            },
            r matches Ok(o) ==> {
                &&& o.wf()
                &&& o.layout().ids() == layers_view(node_layers@)
                &&& forall|l: int|
                    0 <= l < node_layers@.len() ==> #[trigger] o.layout().orders()[l] == identity(
                        node_layers@[l]@.len() as int,
                    )
                &&& forall|s: int|
                    0 <= s < edges@.len() ==> #[trigger] o.layout().edge_sets()[s] == mapped_edges(
                        node_layers@[s]@,
                        node_layers@[s + 1]@,
                        edges@[s]@,
                    )
                &&& forall|l: int|
                    0 <= l < hierarchy@.len() ==> #[trigger] o.hierarchy()[l] == levels_view(
                        hierarchy@[l]@,
                    )
            },
    {
        let ghost nodes_view = node_layers@;
        let ghost edges_view = edges@;
        let optimizer = match LayoutOptimizer::new(node_layers, edges) {
            Ok(o) => o,
            Err(e) => {
                return Err(e);
            },
        };
        let layer_count = optimizer.layers();
        if hierarchy.len() != layer_count {
            return Err(OptimizerError::HierarchyMismatch { hierarchy: hierarchy.len(), layers: layer_count });
        }
        let mut l: usize = 0;
        while l < layer_count
            invariant
                nodes_view == node_layers@,
                layers_consistent(node_layers@, edges_view),
                all_edge_weight(edges_view) <= MAX_LAYER_WEIGHT,
                edges_view == edges@,
                optimizer.wf(),
                optimizer.ids() == layers_view(nodes_view),
                layer_count == optimizer.layer_count(),
                hierarchy@.len() == layer_count,
                l <= layer_count,
                forall|m: int|
                    0 <= m < l ==> valid_hierarchy(
                        nodes_view[m]@.len() as int,
                        levels_view(#[trigger] hierarchy@[m]@),
                    ),
            decreases layer_count - l,
        {
            let n = optimizer.layer_len(l);
            assert(n == nodes_view[l as int]@.len());
            match validate_hierarchy(l, n, &hierarchy[l]) {
                Ok(()) => {},
                Err(e) => {
                    assert(!valid_hierarchy(
                        nodes_view[l as int]@.len() as int,
                        levels_view(hierarchy@[l as int]@),
                    ));
                    assert(!(forall|m: int|
                        0 <= m < hierarchy@.len() ==> valid_hierarchy(
                            nodes_view[m]@.len() as int,
                            levels_view(#[trigger] hierarchy@[m]@),
                        )));
                    return Err(e);
                },
            }
            l = l + 1;
        }
        let r = HierarchyOptimizer { optimizer, hierarchy };
        proof {
            assert forall|m: int| 0 <= m < r.hierarchy@.len() implies #[trigger] r.hierarchy()[m]
                == levels_view(r.hierarchy@[m]@) by {}
        }
        Ok(r)
    }

    /// The weighted crossings of the whole drawing.
    pub fn count_crossings(&self) -> (r: u64)
        requires
            self.wf(),
        ensures
            r == self.layout().total_crossings(),
    {
        self.optimizer.count_crossings()
    }

    /// The weighted crossings between layer `layer_index` and its neighbours.
    pub fn count_layer_crossings(&self, layer_index: usize) -> (r: i64)
        requires
            self.wf(),
            layer_index < self.layout().layer_count(),
        ensures
            r == self.layout().layer_crossings(layer_index as int),
    {
        self.optimizer.count_layer_crossings(layer_index)
    }

    /// The node identifiers of each layer in its current order.
    pub fn get_nodes(&self) -> (r: Vec<Vec<T>>) where T: Clone
        requires
            self.wf(),
        ensures
            r@.len() == self.layout().layer_count(),
            forall|l: int|
                0 <= l < self.layout().layer_count() ==> (#[trigger] r@[l])@.len()
                    == self.layout().layer_size(l),
            forall|l: int, k: int|
                0 <= l < self.layout().layer_count() && 0 <= k < self.layout().layer_size(l)
                    ==> cloned(self.layout().nodes()[l][k], #[trigger] r@[l]@[k]),
    {
        self.optimizer.get_nodes()
    }

    /// The group sizes of each layer, level by level.
    pub fn get_hierarchy(&self) -> (r: Vec<Vec<Vec<usize>>>)
        ensures
            r@.len() == self.hierarchy().len(),
            forall|l: int| 0 <= l < r@.len() ==> levels_view((#[trigger] r@[l])@) == self.hierarchy()[l],
    {
        let mut r: Vec<Vec<Vec<usize>>> = Vec::new();
        let mut l: usize = 0;
        while l < self.hierarchy.len()
            invariant
                l <= self.hierarchy@.len(),
                r@.len() == l,
                forall|m: int| 0 <= m < l ==> levels_view((#[trigger] r@[m])@) == self.hierarchy()[m],
            decreases self.hierarchy@.len() - l,
        {
            let levels = &self.hierarchy[l];
            let mut copy: Vec<Vec<usize>> = Vec::new();
            let mut g: usize = 0;
            while g < levels.len()
                invariant
                    g <= levels@.len(),
                    copy@.len() == g,
                    forall|m: int| 0 <= m < g ==> (#[trigger] copy@[m])@ == levels@[m]@,
                decreases levels@.len() - g,
            {
                let level = &levels[g];
                let mut sizes: Vec<usize> = Vec::new();
                let mut k: usize = 0;
                while k < level.len()
                    invariant
                        k <= level@.len(),
                        sizes@ == level@.take(k as int),
                    decreases level@.len() - k,
                {
                    sizes.push(level[k]);
                    k = k + 1;
                    assert(sizes@ =~= level@.take(k as int));
                }
                assert(level@.take(level@.len() as int) =~= level@);
                copy.push(sizes);
                g = g + 1;
            }
            assert(levels_view(copy@) =~= levels_view(levels@));
            r.push(copy);
            l = l + 1;
        }
        r
    }

    /// Cools layer `layer` node by node, keeping its finest groups together.
    fn rearrange_nodes<F: Fn(usize, i64) -> bool>(
        &mut self,
        layer: usize,
        steps: usize,
        max_iterations: usize,
        accept: &F,
    ) -> (r: i64)
        requires
            old(self).wf(),
            layer < old(self).layout().layer_count(),
            forall|s: usize, d: i64| #[trigger] accept.requires((s, d)),
        ensures
            final(self).wf(),
            old(self).changed_only_at(&*final(self), layer as int),
            final(self).hierarchy()[layer as int] == old(self).hierarchy()[layer as int],
            exists|perm: Seq<usize>|
                {
                    &&& is_permutation(perm, old(self).layout().layer_size(layer as int))
                    &&& keeps_borders(
                        identity(old(self).layout().layer_size(layer as int)),
                        perm,
                        old(self).node_borders(layer as int),
                    )
                    &&& #[trigger] final(self).layout().orders()[layer as int] == compose(
                        old(self).layout().orders()[layer as int],
                        perm,
                    )
                },
            r == final(self).layout().layer_crossings(layer as int),
            greedy(*accept) ==> r <= old(self).layout().layer_crossings(layer as int),
    {
        let n = self.optimizer.layer_len(layer);
        let levels = &self.hierarchy[layer];
        assert(self.hierarchy()[layer as int] == levels_view(levels@));
        let mut borders: Option<Vec<usize>> = None;
        if levels.len() > 0 && validate_hierarchy(layer, n, levels).is_ok() {
            proof {
                assert(levels_view(levels@)[0] == levels@[0]@);
                assert(crate::hierarchy::level_valid(n as int, levels_view(levels@), 0));
                assert(total(levels@[0]@) == n);
            }
            borders = Some(nonempty_end_list(levels[0].as_slice()));
        }
        assert(border_list(borders) == self.node_borders(layer as int));
        let ghost before = *self;
        let count = self.optimizer.rearrange_layer(layer, steps, max_iterations, accept, &borders);
        proof {
            assert(self.hierarchy() =~= before.hierarchy());
        }
        count
    }

    /// Cools the groups of level `g` of layer `layer`, each moving with its nodes and
    /// staying inside its coarser group; nothing changes when they are not `movable`.
    #[verifier::rlimit(60)]
    fn rearrange_groups<F: Fn(usize, i64) -> bool>(
        &mut self,
        layer: usize,
        g: usize,
        steps: usize,
        max_iterations: usize,
        accept: &F,
    ) -> (r: i64)
        requires
            old(self).wf(),
            layer < old(self).layout().layer_count(),
            g < old(self).hierarchy()[layer as int].len(),
            forall|s: usize, d: i64| #[trigger] accept.requires((s, d)),
        ensures
            final(self).wf(),
            old(self).changed_only_at(&*final(self), layer as int),
            final(self).hierarchy()[layer as int].len() == old(self).hierarchy()[layer as int].len(),
            old(self).movable(layer as int, g as int) ==> old(self).group_move(
                &*final(self),
                layer as int,
                g as int,
            ),
            !old(self).movable(layer as int, g as int) ==> final(self).hierarchy()[layer as int]
                == old(self).hierarchy()[layer as int] && final(self).layout().orders()[layer as int]
                == old(self).layout().orders()[layer as int],
            r == final(self).layout().layer_crossings(layer as int),
    {
        let n = self.optimizer.layer_len(layer);
        let ghost before = *self;
        if n > 0xffff_ffff {
            return self.optimizer.count_layer(layer);
        }
        if validate_hierarchy(layer, n, &self.hierarchy[layer]).is_err() {
            return self.optimizer.count_layer(layer);
        }
        let levels = &self.hierarchy[layer];
        let ghost lv = levels_view(levels@);
        assert(self.hierarchy()[layer as int] == lv);
        assert(lv[g as int] == levels@[g as int]@);
        let sizes = &levels[g];
        assert(crate::hierarchy::level_valid(n as int, lv, g as int));
        assert(total(sizes@) == n);
        let ends = match group_end_list(sizes.as_slice()) {
            Some(e) => e,
            None => {
                return self.optimizer.count_layer(layer);
            },
        };
        let groups = sizes.len();
        let (matrix, count) = self.optimizer.layer_problem(layer);
        let aggregated = aggregate_pairwise_matrix(&matrix, &ends);
        let coarse: Option<Vec<usize>> = if g < levels.len() - 1 {
            assert(lv[g + 1] == levels@[g + 1]@);
            assert(crate::hierarchy::level_valid(n as int, lv, g + 1));
            assert(total(levels@[g + 1]@) == n);
            get_borders(sizes.as_slice(), levels[g + 1].as_slice())
        } else {
            None
        };
        let (sigma, _) = cooldown(groups, &aggregated, max_iterations, steps, accept, count, &coarse);
        proof {
            assert forall|k: int| 0 <= k < sigma@.len() implies #[trigger] sigma@[k] < sizes@.len()
                && crate::hierarchy::prefix_sum(sizes@, sigma@[k] + 1) <= self.optimizer.orders()[layer as int].len() by {
                lemma_prefix_sum_monotone(sizes@, sigma@[k] + 1, sizes@.len() as int);
            }
            assert(levels_fit(lv)) by {
                assert forall|m: int| 0 <= m < lv.len() implies total(#[trigger] lv[m]) <= usize::MAX by {
                    assert(crate::hierarchy::level_valid(n as int, lv, m));
                }
            }
            assert(crate::hierarchy::indices_within(sigma@, levels@[g as int]@.len() as int));
        }
        let order = self.optimizer.order_at(layer);
        let new_order = reorder_index_groups(order, sizes.as_slice(), sigma.as_slice());
        proof {
            crate::hierarchy::lemma_groups_in_order_total(order@, sizes@, sigma@);
        }
        let new_levels = reorder_hierarchy(levels.as_slice(), g, sigma.as_slice());
        proof {
            lemma_groups_in_order_entries(order@, sizes@, sigma@, n as int);
            assert(order_within(new_order@, n as int));
            assert(self.optimizer.orders()[layer as int] == order@);
            crate::hierarchy::lemma_groups_in_order_permutation(order@, sizes@, sigma@);
            if g + 1 < lv.len() {
                assert(lv[g + 1] == levels@[g + 1]@);
                assert(crate::hierarchy::level_valid(n as int, lv, g + 1));
                assert(aligned(lv[g as int], lv[g + 1]));
                let b = border_list(coarse);
                assert(is_borders(lv[g as int], lv[g + 1], b));
            }
        }
        self.optimizer.set_order(layer, new_order);
        self.hierarchy.set(layer, new_levels);
        proof {
            assert(self.hierarchy() =~= before.hierarchy().update(layer as int, levels_view(new_levels@)));
            assert(self.hierarchy()[layer as int] == reordered_hierarchy(lv, g as int, sigma@));
        }
        self.optimizer.count_layer(layer)
    }

    /// One Metropolis run on layer `layer_index`: node by node (keeping the finest groups
    /// together) when `granularity` is `None`, else on the groups of that level; returns
    /// the layer's crossings in its new order.
    pub fn swap_nodes<F: Fn(usize, i64) -> bool>(
        &mut self,
        layer_index: usize,
        granularity: Option<usize>,
        max_iterations: usize,
        accept: &F,
    ) -> (r: i64)
        requires
            old(self).wf(),
            layer_index < old(self).layout().layer_count(),
            granularity matches Some(g) ==> g < old(self).hierarchy()[layer_index as int].len(),
            forall|s: usize, d: i64| #[trigger] accept.requires((s, d)),
        ensures
            final(self).wf(),
            old(self).changed_only_at(&*final(self), layer_index as int),
            final(self).hierarchy()[layer_index as int].len() == old(
                self,
            ).hierarchy()[layer_index as int].len(),
            granularity is None ==> {
                &&& final(self).hierarchy()[layer_index as int] == old(
                    self,
                ).hierarchy()[layer_index as int]
                &&& exists|perm: Seq<usize>|
                    {
                        &&& is_permutation(perm, old(self).layout().layer_size(layer_index as int))
                        &&& keeps_borders(
                            identity(old(self).layout().layer_size(layer_index as int)),
                            perm,
                            old(self).node_borders(layer_index as int),
                        )
                        &&& #[trigger] final(self).layout().orders()[layer_index as int] == compose(
                            old(self).layout().orders()[layer_index as int],
                            perm,
                        )
                    }
            },
            granularity matches Some(g) ==> {
                &&& old(self).movable(layer_index as int, g as int) ==> old(self).group_move(
                    &*final(self),
                    layer_index as int,
                    g as int,
                )
                &&& !old(self).movable(layer_index as int, g as int) ==> final(self).hierarchy()[layer_index as int]
                    == old(self).hierarchy()[layer_index as int] && final(self).layout().orders()[layer_index as int]
                    == old(self).layout().orders()[layer_index as int]
            },
            r == final(self).layout().layer_crossings(layer_index as int),
            granularity is None && greedy(*accept) ==> r <= old(self).layout().layer_crossings(
                layer_index as int,
            ),
    {
        self.cooldown(1, max_iterations, layer_index, granularity, accept)
    }

    /// `steps` Metropolis runs on layer `layer_index`, run `s` deciding non-improving
    /// moves with `accept(s, _)`: node by node (keeping the finest groups together) when
    /// `granularity` is `None`, else on the groups of that level, each staying inside its
    /// coarser group; returns the layer's crossings in its new order.
    pub fn cooldown<F: Fn(usize, i64) -> bool>(
        &mut self,
        steps: usize,
        max_iterations: usize,
        layer_index: usize,
        granularity: Option<usize>,
        accept: &F,
    ) -> (r: i64)
        requires
            old(self).wf(),
            layer_index < old(self).layout().layer_count(),
            granularity matches Some(g) ==> g < old(self).hierarchy()[layer_index as int].len(),
            forall|s: usize, d: i64| #[trigger] accept.requires((s, d)),
        ensures
            final(self).wf(),
            old(self).changed_only_at(&*final(self), layer_index as int),
            final(self).hierarchy()[layer_index as int].len() == old(
                self,
            ).hierarchy()[layer_index as int].len(),
            granularity is None ==> {
                &&& final(self).hierarchy()[layer_index as int] == old(
                    self,
                ).hierarchy()[layer_index as int]
                &&& exists|perm: Seq<usize>|
                    {
                        &&& is_permutation(perm, old(self).layout().layer_size(layer_index as int))
                        &&& keeps_borders(
                            identity(old(self).layout().layer_size(layer_index as int)),
                            perm,
                            old(self).node_borders(layer_index as int),
                        )
                        &&& #[trigger] final(self).layout().orders()[layer_index as int] == compose(
                            old(self).layout().orders()[layer_index as int],
                            perm,
                        )
                    }
            },
            granularity matches Some(g) ==> {
                &&& old(self).movable(layer_index as int, g as int) ==> old(self).group_move(
                    &*final(self),
                    layer_index as int,
                    g as int,
                )
                &&& !old(self).movable(layer_index as int, g as int) ==> final(self).hierarchy()[layer_index as int]
                    == old(self).hierarchy()[layer_index as int] && final(self).layout().orders()[layer_index as int]
                    == old(self).layout().orders()[layer_index as int]
            },
            r == final(self).layout().layer_crossings(layer_index as int),
            granularity is None && greedy(*accept) ==> r <= old(self).layout().layer_crossings(
                layer_index as int,
            ),
    {
        match granularity {
            None => self.rearrange_nodes(layer_index, steps, max_iterations, accept),
            Some(g) => self.rearrange_groups(layer_index, g, steps, max_iterations, accept),
        }
    }

    /// `passes` passes; in each, every layer in turn is cooled level by level from the
    /// coarsest to the finest, then node by node; returns the last layer's crossings after
    /// the last pass (0 when there is none).
    pub fn optimize<F: Fn(usize, i64) -> bool>(
        &mut self,
        steps: usize,
        max_iterations: usize,
        passes: usize,
        accept: &F,
    ) -> (r: i64)
        requires
            old(self).wf(),
            forall|s: usize, d: i64| #[trigger] accept.requires((s, d)),
        ensures
            final(self).wf(),
            final(self).layout().ids() == old(self).layout().ids(),
            final(self).layout().edge_sets() == old(self).layout().edge_sets(),
            forall|l: int|
                0 <= l < final(self).layout().layer_count() ==> is_permutation(
                    #[trigger] final(self).layout().orders()[l],
                    final(self).layout().layer_size(l),
                ),
            passes > 0 ==> r == final(self).layout().layer_crossings(
                final(self).layout().layer_count() - 1,
            ),
            passes == 0 ==> r == 0,
    {
        let mut count: i64 = 0;
        let ghost ids = self.layout().ids();
        let ghost sets = self.layout().edge_sets();
        let layer_count = self.optimizer.layers();
        let mut pass: usize = 0;
        while pass < passes
            invariant
                self.wf(),
                self.layout().ids() == ids,
                self.layout().edge_sets() == sets,
                layer_count == self.layout().layer_count(),
                forall|s: usize, d: i64| #[trigger] accept.requires((s, d)),
                pass <= passes,
                pass > 0 ==> count == self.layout().layer_crossings(layer_count - 1),
                pass == 0 ==> count == 0,
            decreases passes - pass,
        {
            let mut l: usize = 0;
            while l < layer_count
                invariant
                    self.wf(),
                    self.layout().ids() == ids,
                    self.layout().edge_sets() == sets,
                    layer_count == self.layout().layer_count(),
                    forall|s: usize, d: i64| #[trigger] accept.requires((s, d)),
                    l <= layer_count,
                    l > 0 ==> count == self.layout().layer_crossings(l - 1),
                    l == 0 && pass > 0 ==> count == self.layout().layer_crossings(layer_count - 1),
                    l == 0 && pass == 0 ==> count == 0,
                decreases layer_count - l,
            {
                let levels = self.hierarchy[l].len();
                assert(levels == self.hierarchy()[l as int].len());
                let mut g: usize = levels;
                while g > 0
                    invariant
                        self.wf(),
                        self.layout().ids() == ids,
                        self.layout().edge_sets() == sets,
                        layer_count == self.layout().layer_count(),
                        forall|s: usize, d: i64| #[trigger] accept.requires((s, d)),
                        l < layer_count,
                        levels == self.hierarchy()[l as int].len(),
                        g <= levels,
                    decreases g,
                {
                    g = g - 1;
                    self.cooldown(steps, max_iterations, l, Some(g), accept);
                }
                count = self.cooldown(steps, max_iterations, l, None, accept);
                l = l + 1;
            }
            pass = pass + 1;
        }
        count
    }
}

} // verus!
