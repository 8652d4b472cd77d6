use vstd::prelude::*;

use crate::error::OptimizerError;

verus! {

/// Sum of the first `k` entries of `s` (0 for `k <= 0`).
pub open spec fn prefix_sum(s: Seq<usize>, k: int) -> int
    decreases k,
{
    if k <= 0 || s.len() == 0 {
        0
    } else if k > s.len() {
        prefix_sum(s, s.len() as int)
    } else {
        prefix_sum(s, k - 1) + s[k - 1]
    }
}

/// Sum of all entries of `s`.
pub open spec fn total(s: Seq<usize>) -> int {
    prefix_sum(s, s.len() as int)
}

pub proof fn lemma_prefix_sum_nonneg(s: Seq<usize>, k: int)
    ensures
        0 <= prefix_sum(s, k),
    decreases k,
{
    if k > s.len() {
        lemma_prefix_sum_nonneg(s, s.len() as int);
    } else if k > 0 && s.len() > 0 {
        lemma_prefix_sum_nonneg(s, k - 1);
    }
}

pub proof fn lemma_prefix_sum_monotone(s: Seq<usize>, i: int, j: int)
    requires
        0 <= i <= j <= s.len(),
    ensures
        0 <= prefix_sum(s, i) <= prefix_sum(s, j),
    decreases j - i,
{
    lemma_prefix_sum_nonneg(s, i);
    if i < j {
        lemma_prefix_sum_monotone(s, i, j - 1);
    }
}

/// The nodes of group `g`, where `sizes` lists the group sizes in layer order.
pub open spec fn group_members<T>(nodes: Seq<T>, sizes: Seq<usize>, g: int) -> Seq<T> {
    nodes.subrange(prefix_sum(sizes, g), prefix_sum(sizes, g + 1))
}

/// The nodes of the groups listed in `order`, group after group.
pub open spec fn groups_in_order<T>(nodes: Seq<T>, sizes: Seq<usize>, order: Seq<usize>) -> Seq<T>
    decreases order.len(),
{
    if order.len() == 0 {
        Seq::empty()
    } else {
        groups_in_order(nodes, sizes, order.drop_last()) + group_members(
            nodes,
            sizes,
            order.last() as int,
        )
    }
}

/// Every index of `order` names a group of `sizes` that lies inside a layer of `n` nodes.
pub open spec fn groups_fit(sizes: Seq<usize>, order: Seq<usize>, n: int) -> bool {
    forall|k: int|
        0 <= k < order.len() ==> #[trigger] order[k] < sizes.len() && prefix_sum(
            sizes,
            order[k] + 1,
        ) <= n
}

/// Sum of `sizes[0..k]`, computed.
fn sum_prefix(sizes: &[usize], k: usize) -> (r: usize)
    requires
        k <= sizes@.len(),
        prefix_sum(sizes@, k as int) <= usize::MAX,
    ensures
        r == prefix_sum(sizes@, k as int),
{
    let mut acc: usize = 0;
    let mut i: usize = 0;
    while i < k
        invariant
            i <= k <= sizes@.len(),
            prefix_sum(sizes@, k as int) <= usize::MAX,
            acc == prefix_sum(sizes@, i as int),
        decreases k - i,
    {
        proof {
            lemma_prefix_sum_monotone(sizes@, i + 1, k as int);
        }
        acc = acc + sizes[i];
        i = i + 1;
    }
    acc
}

/// Lays out the groups of a layer in a new order: the groups named by `new_indices`,
/// each with its nodes in their current order.
pub fn reorder_node_groups<T: Clone>(nodes: &[T], group_sizes: &[usize], new_indices: &[usize]) -> (r:
    Vec<T>)
    requires
        groups_fit(group_sizes@, new_indices@, nodes@.len() as int),
    ensures
        r@.len() == groups_in_order(nodes@, group_sizes@, new_indices@).len(),
        forall|m: int|
            0 <= m < r@.len() ==> cloned(
                #[trigger] groups_in_order(nodes@, group_sizes@, new_indices@)[m],
                r@[m],
            ),
{
    let n = nodes.len();
    let mut new_nodes: Vec<T> = Vec::new();
    let mut k: usize = 0;
    while k < new_indices.len()
        invariant
            k <= new_indices@.len(),
            n == nodes@.len(),
            groups_fit(group_sizes@, new_indices@, nodes@.len() as int),
            new_nodes@.len() == groups_in_order(nodes@, group_sizes@, new_indices@.take(k as int)).len(),
            forall|m: int|
                0 <= m < new_nodes@.len() ==> cloned(
                    #[trigger] groups_in_order(nodes@, group_sizes@, new_indices@.take(k as int))[m],
                    new_nodes@[m],
                ),
        decreases new_indices@.len() - k,
    {
        let g = new_indices[k];
        proof {
            assert(g < group_sizes@.len() && prefix_sum(group_sizes@, g + 1) <= nodes@.len()) by {
                assert(new_indices@[k as int] == g);
            }
            lemma_prefix_sum_monotone(group_sizes@, g as int, g + 1);
        }
        let start = sum_prefix(group_sizes, g);
        let end = start + group_sizes[g];
        let ghost done = groups_in_order(nodes@, group_sizes@, new_indices@.take(k as int));
        let ghost base = new_nodes@.len();
        assert(base == done.len());
        let mut t: usize = start;
        while t < end
            invariant
                start <= t <= end <= nodes@.len(),
                base == done.len(),
                new_nodes@.len() == base + (t - start),
                forall|m: int| 0 <= m < base ==> cloned(#[trigger] done[m], new_nodes@[m]),
                forall|m: int|
                    base <= m < new_nodes@.len() ==> cloned(
                        nodes@[start + (m - base)],
                        #[trigger] new_nodes@[m],
                    ),
            decreases end - t,
        {
            new_nodes.push(nodes[t].clone());
            t = t + 1;
        }
        proof {
            let next = new_indices@.take(k + 1);
            assert(next.drop_last() =~= new_indices@.take(k as int));
            assert(next.last() == g);
            let whole = groups_in_order(nodes@, group_sizes@, next);
            assert(whole == done + group_members(nodes@, group_sizes@, g as int));
            assert forall|m: int| 0 <= m < new_nodes@.len() implies cloned(
                #[trigger] whole[m],
                new_nodes@[m],
            ) by {
                if m < base {
                    assert(whole[m] == done[m]);
                } else {
                    assert(whole[m] == nodes@[start + (m - base)]);
                }
            }
        }
        k = k + 1;
    }
    assert(new_indices@.take(new_indices@.len() as int) =~= new_indices@);
    new_nodes
}

/// The groups of `groups` that start inside `[lo, hi)`, among the first `i`, in order.
pub open spec fn groups_starting_within(groups: Seq<usize>, lo: int, hi: int, i: int) -> Seq<usize>
    decreases i,
{
    if i <= 0 {
        Seq::empty()
    } else {
        let prev = groups_starting_within(groups, lo, hi, i - 1);
        let start = prefix_sum(groups, i - 1);
        if lo <= start < hi {
            prev.push(groups[i - 1])
        } else {
            prev
        }
    }
}

/// The finer groups carried along when the coarser groups are laid out in `order`.
pub open spec fn regrouped(parents: Seq<usize>, groups: Seq<usize>, order: Seq<usize>) -> Seq<usize>
    decreases order.len(),
{
    if order.len() == 0 {
        Seq::empty()
    } else {
        let p = order.last() as int;
        regrouped(parents, groups, order.drop_last()) + groups_starting_within(
            groups,
            prefix_sum(parents, p),
            prefix_sum(parents, p + 1),
            groups.len() as int,
        )
    }
}

/// Every index of `order` names an entry of `s`.
pub open spec fn indices_within(order: Seq<usize>, len: int) -> bool {
    forall|k: int| 0 <= k < order.len() ==> #[trigger] order[k] < len
}

/// The entries of `s` picked by `order`.
pub open spec fn permuted(s: Seq<usize>, order: Seq<usize>) -> Seq<usize> {
    Seq::new(order.len(), |k: int| s[order[k] as int])
}

/// `reorder_node_groups` on a layer held as an order of node indices.
pub(crate) fn reorder_index_groups(order: &Vec<usize>, group_sizes: &[usize], new_indices: &[usize]) -> (r:
    Vec<usize>)
    requires
        groups_fit(group_sizes@, new_indices@, order@.len() as int),
    ensures
        r@ == groups_in_order(order@, group_sizes@, new_indices@),
{
    let n = order.len();
    let mut new_order: Vec<usize> = Vec::new();
    let mut k: usize = 0;
    while k < new_indices.len()
        invariant
            k <= new_indices@.len(),
            n == order@.len(),
            groups_fit(group_sizes@, new_indices@, order@.len() as int),
            new_order@ == groups_in_order(order@, group_sizes@, new_indices@.take(k as int)),
        decreases new_indices@.len() - k,
    {
        let g = new_indices[k];
        proof {
            assert(g < group_sizes@.len() && prefix_sum(group_sizes@, g + 1) <= order@.len()) by {
                assert(new_indices@[k as int] == g);
            }
            lemma_prefix_sum_monotone(group_sizes@, g as int, g + 1);
        }
        let start = sum_prefix(group_sizes, g);
        let end = start + group_sizes[g];
        let ghost done = new_order@;
        let mut t: usize = start;
        while t < end
            invariant
                start <= t <= end <= order@.len(),
                new_order@ == done + order@.subrange(start as int, t as int),
            decreases end - t,
        {
            new_order.push(order[t]);
            t = t + 1;
            assert(new_order@ =~= done + order@.subrange(start as int, t as int));
        }
        proof {
            let next = new_indices@.take(k + 1);
            assert(next.drop_last() =~= new_indices@.take(k as int));
            assert(next.last() == g);
        }
        k = k + 1;
    }
    assert(new_indices@.take(new_indices@.len() as int) =~= new_indices@);
    new_order
}

/// Carries the finer groups of `groups` along when the coarser groups `parent_groups`
/// are laid out in `new_order`: for each coarser group in turn, the finer groups that
/// start inside it, in their current order.
pub fn reorder_group(parent_groups: &[usize], groups: &[usize], new_order: &[usize]) -> (r: Vec<
    usize,
>)
    requires
        indices_within(new_order@, parent_groups@.len() as int),
        total(parent_groups@) <= usize::MAX,
        total(groups@) <= usize::MAX,
    ensures
        r@ == regrouped(parent_groups@, groups@, new_order@),
{
    let mut new_groups: Vec<usize> = Vec::new();
    let mut k: usize = 0;
    while k < new_order.len()
        invariant
            k <= new_order@.len(),
            indices_within(new_order@, parent_groups@.len() as int),
            total(parent_groups@) <= usize::MAX,
            total(groups@) <= usize::MAX,
            new_groups@ == regrouped(parent_groups@, groups@, new_order@.take(k as int)),
        decreases new_order@.len() - k,
    {
        let p = new_order[k];
        proof {
            assert(p < parent_groups@.len()) by {
                assert(new_order@[k as int] == p);
            }
            lemma_prefix_sum_monotone(parent_groups@, p as int, p + 1);
            lemma_prefix_sum_monotone(parent_groups@, p + 1, parent_groups@.len() as int);
        }
        let parent_start = sum_prefix(parent_groups, p);
        let parent_end = parent_start + parent_groups[p];
        let ghost before = new_groups@;
        let mut group_start: usize = 0;
        let mut i: usize = 0;
        while i < groups.len()
            invariant
                i <= groups@.len(),
                total(groups@) <= usize::MAX,
                group_start == prefix_sum(groups@, i as int),
                parent_start == prefix_sum(parent_groups@, p as int),
                parent_end == prefix_sum(parent_groups@, p + 1),
                new_groups@ == before + groups_starting_within(
                    groups@,
                    parent_start as int,
                    parent_end as int,
                    i as int,
                ),
            decreases groups@.len() - i,
        {
            if group_start >= parent_start && group_start < parent_end {
                new_groups.push(groups[i]);
            }
            proof {
                lemma_prefix_sum_monotone(groups@, i + 1, groups@.len() as int);
            }
            group_start = group_start + groups[i];
            i = i + 1;
        }
        proof {
            let next = new_order@.take(k + 1);
            assert(next.drop_last() =~= new_order@.take(k as int));
        }
        k = k + 1;
    }
    assert(new_order@.take(new_order@.len() as int) =~= new_order@);
    new_groups
}

/// A copy of a level.
fn copy_level(level: &Vec<usize>) -> (r: Vec<usize>)
    ensures
        r@ == level@,
{
    let mut r: Vec<usize> = Vec::new();
    let mut i: usize = 0;
    while i < level.len()
        invariant
            i <= level@.len(),
            r@ == level@.take(i as int),
        decreases level@.len() - i,
    {
        r.push(level[i]);
        i = i + 1;
        assert(r@ =~= level@.take(i as int));
    }
    assert(level@.take(level@.len() as int) =~= level@);
    r
}

/// The hierarchy after level `layer_index` is laid out in `new_order`.
pub open spec fn reordered_hierarchy(levels: Seq<Seq<usize>>, layer_index: int, order: Seq<usize>) -> Seq<
    Seq<usize>,
> {
    Seq::new(
        levels.len(),
        |l: int|
            if l > layer_index {
                levels[l]
            } else if l == layer_index {
                permuted(levels[l], order)
            } else {
                regrouped(levels[layer_index], levels[l], order)
            },
    )
}

/// The group sizes of every level of `levels`, as sequences.
pub open spec fn levels_view(levels: Seq<Vec<usize>>) -> Seq<Seq<usize>> {
    Seq::new(levels.len(), |l: int| levels[l]@)
}

/// Every level's total fits in a `usize`.
pub open spec fn levels_fit(levels: Seq<Seq<usize>>) -> bool {
    forall|l: int| 0 <= l < levels.len() ==> total(#[trigger] levels[l]) <= usize::MAX
}

/// Lays out the groups of level `layer_index` (levels run from finest to coarsest) in
/// `new_order`: finer levels are regrouped under it, coarser levels stay as they are.
pub fn reorder_hierarchy(group_sizes_layers: &[Vec<usize>], layer_index: usize, new_order: &[usize]) -> (r:
    Vec<Vec<usize>>)
    requires
        layer_index < group_sizes_layers@.len(),
        indices_within(new_order@, group_sizes_layers@[layer_index as int]@.len() as int),
        levels_fit(levels_view(group_sizes_layers@)),
    ensures
        levels_view(r@) == reordered_hierarchy(
            levels_view(group_sizes_layers@),
            layer_index as int,
            new_order@,
        ),
{
    let ghost levels = levels_view(group_sizes_layers@);
    let ghost target = reordered_hierarchy(levels, layer_index as int, new_order@);
    let mut new_group_sizes: Vec<Vec<usize>> = Vec::new();
    let mut l: usize = 0;
    while l < group_sizes_layers.len()
        invariant
            l <= group_sizes_layers@.len(),
            layer_index < group_sizes_layers@.len(),
            levels == levels_view(group_sizes_layers@),
            target == reordered_hierarchy(levels, layer_index as int, new_order@),
            indices_within(new_order@, levels[layer_index as int].len() as int),
            levels_fit(levels),
            new_group_sizes@.len() == l,
            forall|m: int| 0 <= m < l ==> (#[trigger] new_group_sizes@[m])@ == target[m],
        decreases group_sizes_layers@.len() - l,
    {
        assert(levels[l as int] == group_sizes_layers@[l as int]@);
        assert(levels[layer_index as int] == group_sizes_layers@[layer_index as int]@);
        if l > layer_index {
            let level = copy_level(&group_sizes_layers[l]);
            new_group_sizes.push(level);
        } else if l == layer_index {
            let level = &group_sizes_layers[l];
            let mut picked: Vec<usize> = Vec::new();
            let mut k: usize = 0;
            while k < new_order.len()
                invariant
                    k <= new_order@.len(),
                    indices_within(new_order@, level@.len() as int),
                    picked@ == permuted(level@, new_order@.take(k as int)),
                decreases new_order@.len() - k,
            {
                assert(new_order@[k as int] < level@.len());
                picked.push(level[new_order[k]]);
                k = k + 1;
                assert(picked@ =~= permuted(level@, new_order@.take(k as int)));
            }
            assert(new_order@.take(new_order@.len() as int) =~= new_order@);
            new_group_sizes.push(picked);
        } else {
            proof {
                assert(total(levels[layer_index as int]) <= usize::MAX);
                assert(total(levels[l as int]) <= usize::MAX);
            }
            let level = reorder_group(
                group_sizes_layers[layer_index].as_slice(),
                group_sizes_layers[l].as_slice(),
                new_order,
            );
            new_group_sizes.push(level);
        }
        l = l + 1;
    }
    assert(levels_view(new_group_sizes@) =~= target);
    new_group_sizes
}

/// `borders` marks, for each coarser group of `parent`, the index of the finer group of
/// `child` on which it ends; the marks strictly increase.
pub open spec fn is_borders(child: Seq<usize>, parent: Seq<usize>, borders: Seq<usize>) -> bool {
    &&& borders.len() == parent.len()
    &&& forall|k: int|
        0 <= k < borders.len() ==> #[trigger] borders[k] < child.len() && prefix_sum(
            child,
            borders[k] + 1,
        ) == prefix_sum(parent, k + 1)
    &&& forall|k: int| 0 < k < borders.len() ==> borders[k - 1] < #[trigger] borders[k]
}

/// The coarser level `parent` ends each of its groups on a group boundary of `child`.
pub open spec fn aligned(child: Seq<usize>, parent: Seq<usize>) -> bool {
    exists|borders: Seq<usize>| is_borders(child, parent, borders)
}

/// For each group of `parent_groups`, the index of the group of `child_groups` on which
/// it ends (the first such index when groups of size 0 leave a choice); `None` when the
/// levels do not align.
pub fn get_borders(child_groups: &[usize], parent_groups: &[usize]) -> (r: Option<Vec<usize>>)
    requires
        total(child_groups@) <= usize::MAX,
        total(parent_groups@) <= usize::MAX,
    ensures
        r matches Some(b) ==> is_borders(child_groups@, parent_groups@, b@),
        r is None <==> !aligned(child_groups@, parent_groups@),
{
    let ghost child = child_groups@;
    let ghost parent = parent_groups@;
    let mut borders: Vec<usize> = Vec::new();
    let mut parent_size: usize = 0;
    let mut child_size: usize = 0;
    let mut child_index: usize = 0;
    let mut k: usize = 0;
    while k < parent_groups.len()
        invariant
            k <= parent.len(),
            child == child_groups@,
            parent == parent_groups@,
            total(child) <= usize::MAX,
            total(parent) <= usize::MAX,
            child_index <= child.len(),
            parent_size == prefix_sum(parent, k as int),
            child_size == prefix_sum(child, child_index as int),
            borders@.len() == k,
            k == 0 ==> child_index == 0,
            k > 0 ==> child_index == borders@[k - 1] + 1,
            forall|m: int|
                0 <= m < k ==> #[trigger] borders@[m] < child.len() && prefix_sum(
                    child,
                    borders@[m] + 1,
                ) == prefix_sum(parent, m + 1),
            forall|m: int| 0 < m < k ==> borders@[m - 1] < #[trigger] borders@[m],
            forall|b: Seq<usize>|
                #[trigger] is_borders(child, parent, b) ==> k < parent.len() ==> child_index
                    <= b[k as int],
        decreases parent.len() - k,
    {
        proof {
            lemma_prefix_sum_monotone(parent, k + 1, parent.len() as int);
        }
        parent_size = parent_size + parent_groups[k];
        loop
            invariant_except_break
                forall|b: Seq<usize>|
                    #[trigger] is_borders(child, parent, b) ==> child_index <= b[k as int],
            invariant
                k < parent.len(),
                child == child_groups@,
                parent == parent_groups@,
                total(child) <= usize::MAX,
                child_index <= child.len(),
                parent_size == prefix_sum(parent, k + 1),
                child_size == prefix_sum(child, child_index as int),
                borders@.len() == k,
                k > 0 ==> child_index >= borders@[k - 1] + 1,
            ensures
                child_index <= child.len(),
                child_index >= 1,
                child_size == parent_size,
                child_size == prefix_sum(child, child_index as int),
                k > 0 ==> child_index - 1 > borders@[k - 1],
                forall|b: Seq<usize>|
                    #[trigger] is_borders(child, parent, b) ==> child_index - 1 <= b[k as int],
            decreases child.len() - child_index,
        {
            if child_index >= child_groups.len() {
                proof {
                    assert forall|b: Seq<usize>| !is_borders(child, parent, b) by {
                        if is_borders(child, parent, b) {
                            assert(b[k as int] < child.len());
                        }
                    }
                }
                return None;
            }
            proof {
                lemma_prefix_sum_monotone(child, child_index + 1, child.len() as int);
            }
            child_size = child_size + child_groups[child_index];
            child_index = child_index + 1;
            if child_size == parent_size {
                break ;
            }
            if child_size > parent_size {
                proof {
                    assert forall|b: Seq<usize>| !is_borders(child, parent, b) by {
                        if is_borders(child, parent, b) {
                            assert(b[k as int] < child.len());
                            lemma_prefix_sum_monotone(child, child_index as int, b[k as int] + 1);
                        }
                    }
                }
                return None;
            }
            proof {
                assert forall|b: Seq<usize>| #[trigger]
                    is_borders(child, parent, b) implies child_index <= b[k as int] by {
                    if child_index - 1 == b[k as int] {
                        assert(prefix_sum(child, b[k as int] + 1) == prefix_sum(parent, k + 1));
                    }
                }
            }
        }
        borders.push(child_index - 1);
        proof {
            assert forall|b: Seq<usize>| #[trigger]
                is_borders(child, parent, b) && k + 1 < parent.len() implies child_index <= b[k
                + 1] by {
                assert(b[k as int] < b[k + 1]);
            }
        }
        k = k + 1;
    }
    assert(is_borders(child, parent, borders@));
    Some(borders)
}

/// Level `l` of `hierarchy` adds up to `n` and, above the finest level, aligns with the
/// level below it.
pub open spec fn level_valid(n: int, hierarchy: Seq<Seq<usize>>, l: int) -> bool {
    &&& total(hierarchy[l]) == n
    &&& l > 0 ==> aligned(hierarchy[l - 1], hierarchy[l])
}

/// Every level of `hierarchy` is valid for a layer of `n` nodes.
pub open spec fn valid_hierarchy(n: int, hierarchy: Seq<Seq<usize>>) -> bool {
    forall|l: int| 0 <= l < hierarchy.len() ==> level_valid(n, hierarchy, l)
}

/// Sum of `level`, or `None` once it exceeds `limit`.
fn level_total_within(level: &Vec<usize>, limit: usize) -> (r: Option<usize>)
    ensures
        r matches Some(t) ==> t == total(level@),
        r is None ==> total(level@) > limit,
{
    let mut acc: usize = 0;
    let mut i: usize = 0;
    while i < level.len()
        invariant
            i <= level@.len(),
            acc == prefix_sum(level@, i as int),
            acc <= limit,
        decreases level@.len() - i,
    {
        if level[i] > limit - acc {
            proof {
                lemma_prefix_sum_monotone(level@, i + 1, level@.len() as int);
            }
            return None;
        }
        acc = acc + level[i];
        i = i + 1;
    }
    Some(acc)
}

/// Checks that every level of a layer's hierarchy adds up to `node_count` and that each
/// level above the finest ends its groups on group boundaries of the level below.
pub fn validate_hierarchy(layer_index: usize, node_count: usize, hierarchy: &Vec<Vec<usize>>) -> (r:
    Result<(), OptimizerError>)
    ensures
        r is Ok <==> valid_hierarchy(node_count as int, levels_view(hierarchy@)),
        r matches Err(e) ==> match e {
            OptimizerError::HierarchySizeMismatch { layer_index: li, level_index: l } => {
                &&& li == layer_index
                &&& l < hierarchy@.len()
                &&& total(hierarchy@[l as int]@) != node_count
                &&& forall|m: int|
                    0 <= m < l ==> level_valid(node_count as int, levels_view(hierarchy@), m)
            },
            OptimizerError::HierarchyMisaligned { layer_index: li, level_index: l } => {
                &&& li == layer_index
                &&& 0 < l < hierarchy@.len()
                &&& total(hierarchy@[l as int]@) == node_count
                &&& !aligned(hierarchy@[l - 1]@, hierarchy@[l as int]@)
                &&& forall|m: int|
                    0 <= m < l ==> level_valid(node_count as int, levels_view(hierarchy@), m)
            },
            _ => false,
        },
{
    let ghost levels = levels_view(hierarchy@);
    let mut l: usize = 0;
    while l < hierarchy.len()
        invariant
            l <= hierarchy@.len(),
            levels == levels_view(hierarchy@),
            forall|m: int| 0 <= m < l ==> level_valid(node_count as int, levels, m),
        decreases hierarchy@.len() - l,
    {
        assert(levels[l as int] == hierarchy@[l as int]@);
        match level_total_within(&hierarchy[l], node_count) {
            Some(t) => {
                if t != node_count {
                    assert(!level_valid(node_count as int, levels, l as int));
                    return Err(OptimizerError::HierarchySizeMismatch { layer_index, level_index: l });
                }
            },
            None => {
                assert(!level_valid(node_count as int, levels, l as int));
                return Err(OptimizerError::HierarchySizeMismatch { layer_index, level_index: l });
            },
        }
        if l > 0 {
            assert(levels[l - 1] == hierarchy@[l - 1]@);
            assert(level_valid(node_count as int, levels, l - 1));
            if get_borders(hierarchy[l - 1].as_slice(), hierarchy[l].as_slice()).is_none() {
                assert(!level_valid(node_count as int, levels, l as int));
                return Err(OptimizerError::HierarchyMisaligned { layer_index, level_index: l });
            }
        }
        assert(level_valid(node_count as int, levels, l as int));
        l = l + 1;
    }
    Ok(())
}

/// For each group, the index of its last node: `prefix_sum(sizes, k + 1) - 1`.
pub open spec fn group_ends(sizes: Seq<usize>) -> Seq<usize> {
    Seq::new(sizes.len(), |k: int| (prefix_sum(sizes, k + 1) - 1) as usize)
}

/// Every group has at least one node.
pub open spec fn all_positive(sizes: Seq<usize>) -> bool {
    forall|k: int| 0 <= k < sizes.len() ==> #[trigger] sizes[k] > 0
}

proof fn lemma_prefix_sum_strict(s: Seq<usize>, i: int, j: int)
    requires
        0 <= i < j <= s.len(),
        all_positive(s),
    ensures
        prefix_sum(s, i) < prefix_sum(s, j),
    decreases j - i,
{
    if i < j - 1 {
        lemma_prefix_sum_strict(s, i, j - 1);
    }
    assert(s[j - 1] > 0);
}

/// The index of the last node of each group; `None` when there is no group or a group is
/// empty.
pub fn group_end_list(sizes: &[usize]) -> (r: Option<Vec<usize>>)
    requires
        total(sizes@) <= usize::MAX,
    ensures
        r matches Some(e) ==> e@ == group_ends(sizes@) && crate::aggregation::are_group_ends(
            e@,
            total(sizes@),
        ),
        r is None <==> sizes@.len() == 0 || !all_positive(sizes@),
{
    if sizes.len() == 0 {
        return None;
    }
    let mut ends: Vec<usize> = Vec::new();
    let mut acc: usize = 0;
    let mut k: usize = 0;
    while k < sizes.len()
        invariant
            k <= sizes@.len(),
            sizes@.len() > 0,
            total(sizes@) <= usize::MAX,
            acc == prefix_sum(sizes@, k as int),
            all_positive(sizes@.take(k as int)),
            ends@ == group_ends(sizes@).take(k as int),
        decreases sizes@.len() - k,
    {
        if sizes[k] == 0 {
            proof {
                assert(sizes@[k as int] == 0);
            }
            return None;
        }
        proof {
            lemma_prefix_sum_monotone(sizes@, k + 1, sizes@.len() as int);
        }
        acc = acc + sizes[k];
        ends.push(acc - 1);
        proof {
            assert forall|m: int| 0 <= m < k + 1 implies #[trigger] sizes@.take(k + 1)[m] > 0 by {
                if m < k {
                    assert(sizes@.take(k as int)[m] > 0);
                }
            }
        }
        k = k + 1;
        assert(ends@ =~= group_ends(sizes@).take(k as int));
    }
    proof {
        assert(sizes@.take(sizes@.len() as int) =~= sizes@);
        assert(group_ends(sizes@).take(sizes@.len() as int) =~= group_ends(sizes@));
        assert(all_positive(sizes@));
        assert(sizes@[0] > 0);
        reveal_with_fuel(prefix_sum, 2);
        assert(prefix_sum(sizes@, 1) == sizes@[0]);
        assert forall|a: int, b: int| 0 <= a < b < ends@.len() implies ends@[a] < ends@[b] by {
            lemma_prefix_sum_strict(sizes@, a + 1, b + 1);
            lemma_prefix_sum_monotone(sizes@, 1, a + 1);
            lemma_prefix_sum_monotone(sizes@, b + 1, sizes@.len() as int);
            assert(ends@ == group_ends(sizes@));
            assert(ends@[a] == prefix_sum(sizes@, a + 1) - 1);
            assert(ends@[b] == prefix_sum(sizes@, b + 1) - 1);
        }
        lemma_prefix_sum_monotone(sizes@, 1, sizes@.len() as int);
    }
    Some(ends)
}

/// Every entry of `groups_in_order(nodes, ..)` is an entry of `nodes`.
pub proof fn lemma_groups_in_order_entries(nodes: Seq<usize>, sizes: Seq<usize>, order: Seq<usize>, n: int)
    requires
        forall|k: int| 0 <= k < nodes.len() ==> #[trigger] nodes[k] < n,
        groups_fit(sizes, order, nodes.len() as int),
    ensures
        forall|m: int|
            0 <= m < groups_in_order(nodes, sizes, order).len() ==> #[trigger] groups_in_order(
                nodes,
                sizes,
                order,
            )[m] < n,
    decreases order.len(),
{
    if order.len() > 0 {
        let shorter = order.drop_last();
        assert(groups_fit(sizes, shorter, nodes.len() as int)) by {
            assert forall|k: int| 0 <= k < shorter.len() implies #[trigger] shorter[k] < sizes.len()
                && prefix_sum(sizes, shorter[k] + 1) <= nodes.len() by {
                assert(shorter[k] == order[k]);
            }
        }
        lemma_groups_in_order_entries(nodes, sizes, shorter, n);
        let g = order.last() as int;
        assert(order[order.len() - 1] == g);
        lemma_prefix_sum_monotone(sizes, g, g + 1);
        let whole = groups_in_order(nodes, sizes, order);
        let prev = groups_in_order(nodes, sizes, shorter);
        assert forall|m: int| 0 <= m < whole.len() implies #[trigger] whole[m] < n by {
            if m < prev.len() {
                assert(whole[m] == prev[m]);
            } else {
                assert(whole[m] == nodes[prefix_sum(sizes, g) + (m - prev.len())]);
            }
        }
    }
}

/// With nonempty groups, the groups that start inside `[ps(x), ps(y))` among the first `i`
/// are those with indices in `[x, y)` below `i`.
proof fn lemma_groups_starting_within_run(groups: Seq<usize>, x: int, y: int, i: int)
    requires
        all_positive(groups),
        0 <= x <= y <= groups.len(),
        0 <= i <= groups.len(),
    ensures
        groups_starting_within(groups, prefix_sum(groups, x), prefix_sum(groups, y), i)
            == groups.subrange(if x < i { x } else { i }, if y < i { y } else { i }),
    decreases i,
{
    if i > 0 {
        lemma_groups_starting_within_run(groups, x, y, i - 1);
        let start = prefix_sum(groups, i - 1);
        if x <= i - 1 {
            lemma_prefix_sum_monotone(groups, x, i - 1);
        } else {
            lemma_prefix_sum_strict(groups, i - 1, x);
        }
        if i - 1 < y {
            lemma_prefix_sum_strict(groups, i - 1, y);
        } else {
            lemma_prefix_sum_monotone(groups, y, i - 1);
        }
        let lo = if x < i - 1 { x } else { i - 1 };
        let hi = if y < i - 1 { y } else { i - 1 };
        let lo2 = if x < i { x } else { i };
        let hi2 = if y < i { y } else { i };
        if x <= i - 1 && i - 1 < y {
            assert(groups.subrange(lo, hi).push(groups[i - 1]) =~= groups.subrange(lo2, hi2));
        } else {
            assert(groups.subrange(lo, hi) =~= groups.subrange(lo2, hi2));
        }
    }
}

/// Adjacent increase of borders gives increase between any two of them.
proof fn lemma_borders_increasing(child: Seq<usize>, parent: Seq<usize>, b: Seq<usize>, j: int, k: int)
    requires
        is_borders(child, parent, b),
        0 <= j < k < b.len(),
    ensures
        b[j] < b[k],
    decreases k - j,
{
    if j < k - 1 {
        lemma_borders_increasing(child, parent, b, j, k - 1);
    }
}

/// Laying out the coarser groups in their current order keeps, group after group, the
/// finer groups up to the end of the `k`-th coarser group.
proof fn lemma_regrouped_identity(parents: Seq<usize>, groups: Seq<usize>, b: Seq<usize>, k: int)
    requires
        is_borders(groups, parents, b),
        all_positive(groups),
        0 <= k <= parents.len(),
        k <= usize::MAX,
    ensures
        regrouped(parents, groups, crate::reducer::identity(k)) == groups.subrange(
            0,
            if k == 0 {
                0
            } else {
                b[k - 1] + 1
            },
        ),
    decreases k,
{
    let id = crate::reducer::identity(k);
    if k > 0 {
        assert(id.drop_last() =~= crate::reducer::identity(k - 1));
        assert(id.last() == k - 1);
        lemma_regrouped_identity(parents, groups, b, k - 1);
        let start = if k == 1 {
            0
        } else {
            b[k - 2] + 1
        };
        let end = b[k - 1] + 1;
        if k > 1 {
            assert(b[k - 2] < b[k - 1]);
            assert(prefix_sum(groups, b[k - 2] + 1) == prefix_sum(parents, k - 1));
        }
        assert(prefix_sum(groups, start) == prefix_sum(parents, k - 1));
        assert(prefix_sum(groups, end) == prefix_sum(parents, k));
        lemma_groups_starting_within_run(groups, start, end, groups.len() as int);
        assert(groups.subrange(0, start) + groups.subrange(start, end) =~= groups.subrange(0, end));
    }
}

/// Borders compose: finer to middle, then middle to coarser.
proof fn lemma_borders_compose(
    child: Seq<usize>,
    mid: Seq<usize>,
    parent: Seq<usize>,
    b1: Seq<usize>,
    b2: Seq<usize>,
)
    requires
        is_borders(child, mid, b1),
        is_borders(mid, parent, b2),
    ensures
        is_borders(child, parent, Seq::new(b2.len(), |k: int| b1[b2[k] as int])),
{
    let b = Seq::new(b2.len(), |k: int| b1[b2[k] as int]);
    assert forall|k: int| 0 < k < b.len() implies b[k - 1] < #[trigger] b[k] by {
        lemma_borders_increasing(child, mid, b1, b2[k - 1] as int, b2[k] as int);
    }
    assert forall|k: int| 0 <= k < b.len() implies #[trigger] b[k] < child.len() && prefix_sum(
        child,
        b[k] + 1,
    ) == prefix_sum(parent, k + 1) by {
        assert(b2[k] < mid.len());
    }
}

/// In a valid hierarchy every level aligns with every finer level.
proof fn lemma_valid_aligned(n: int, levels: Seq<Seq<usize>>, l: int, g: int)
    requires
        valid_hierarchy(n, levels),
        0 <= l < g < levels.len(),
    ensures
        aligned(levels[l], levels[g]),
    decreases g - l,
{
    assert(level_valid(n, levels, g));
    if l < g - 1 {
        lemma_valid_aligned(n, levels, l, g - 1);
        let b1 = choose|b: Seq<usize>| #[trigger] is_borders(levels[l], levels[g - 1], b);
        let b2 = choose|b: Seq<usize>| #[trigger] is_borders(levels[g - 1], levels[g], b);
        lemma_borders_compose(levels[l], levels[g - 1], levels[g], b1, b2);
    }
}

/// A finer level is kept when the coarser level is laid out in its current order.
proof fn lemma_regrouped_identity_level(n: int, levels: Seq<Seq<usize>>, l: int, g: int)
    requires
        valid_hierarchy(n, levels),
        0 <= l < g < levels.len(),
        all_positive(levels[l]),
        levels[g].len() <= usize::MAX,
    ensures
        regrouped(levels[g], levels[l], crate::reducer::identity(levels[g].len() as int)) == levels[l],
{
    lemma_valid_aligned(n, levels, l, g);
    let b = choose|b: Seq<usize>| #[trigger] is_borders(levels[l], levels[g], b);
    lemma_regrouped_identity(levels[g], levels[l], b, levels[g].len() as int);
    assert(level_valid(n, levels, l));
    assert(level_valid(n, levels, g));
    let groups = levels[l];
    if levels[g].len() == 0 {
        if groups.len() > 0 {
            lemma_prefix_sum_strict(groups, 0, groups.len() as int);
        }
        assert(groups.subrange(0, 0) =~= groups);
    } else {
        let last = b[levels[g].len() - 1];
        assert(prefix_sum(groups, last + 1) == prefix_sum(levels[g], levels[g].len() as int));
        if last + 1 < groups.len() {
            lemma_prefix_sum_strict(groups, last + 1, groups.len() as int);
        }
        assert(groups.subrange(0, last + 1) =~= groups);
    }
}

/// Laying out a level of a valid hierarchy in its current order leaves every level as it
/// is, when the groups of the finer levels are nonempty.
pub proof fn lemma_reorder_identity(n: int, levels: Seq<Seq<usize>>, g: int)
    requires
        valid_hierarchy(n, levels),
        0 <= g < levels.len(),
        levels[g].len() <= usize::MAX,
        forall|l: int| 0 <= l < g ==> all_positive(#[trigger] levels[l]),
    ensures
        reordered_hierarchy(levels, g, crate::reducer::identity(levels[g].len() as int)) == levels,
{
    let id = crate::reducer::identity(levels[g].len() as int);
    let r = reordered_hierarchy(levels, g, id);
    assert forall|l: int| 0 <= l < levels.len() implies #[trigger] r[l] == levels[l] by {
        if l == g {
            assert(permuted(levels[l], id) =~= levels[l]);
        } else if l < g {
            lemma_regrouped_identity_level(n, levels, l, g);
        }
    }
    assert(r =~= levels);
}

/// The length of the nodes laid out for the first `k` groups of `order` is the sum of
/// their sizes.
proof fn lemma_groups_in_order_len(nodes: Seq<usize>, sizes: Seq<usize>, order: Seq<usize>, k: int)
    requires
        groups_fit(sizes, order, nodes.len() as int),
        0 <= k <= order.len(),
    ensures
        groups_in_order(nodes, sizes, order.take(k)).len() == prefix_sum(permuted(sizes, order), k),
    decreases k,
{
    if k > 0 {
        lemma_groups_in_order_len(nodes, sizes, order, k - 1);
        let t = order.take(k);
        assert(t.drop_last() =~= order.take(k - 1));
        let g = order[k - 1] as int;
        assert(t.last() == g);
        assert(g < sizes.len());
        lemma_prefix_sum_monotone(sizes, g, g + 1);
        assert(permuted(sizes, order)[k - 1] == sizes[g]);
    }
}

/// Groups move as blocks: after the groups are laid out in `order`, the nodes of the new
/// group `k` (whose size is `sizes[order[k]]`) are those of the old group `order[k]`, in
/// their old order.
pub proof fn lemma_groups_move_as_blocks(nodes: Seq<usize>, sizes: Seq<usize>, order: Seq<usize>, k: int)
    requires
        groups_fit(sizes, order, nodes.len() as int),
        0 <= k < order.len(),
    ensures
        group_members(groups_in_order(nodes, sizes, order), permuted(sizes, order), k)
            == group_members(nodes, sizes, order[k] as int),
{
    lemma_groups_in_order_len(nodes, sizes, order, k);
    lemma_groups_in_order_len(nodes, sizes, order, k + 1);
    lemma_groups_in_order_prefix(nodes, sizes, order, k + 1);
    let g = order[k] as int;
    let t = order.take(k + 1);
    assert(t.drop_last() =~= order.take(k));
    assert(t.last() == g);
    lemma_prefix_sum_monotone(sizes, g, g + 1);
    let whole = groups_in_order(nodes, sizes, order);
    let upto = groups_in_order(nodes, sizes, t);
    let before = groups_in_order(nodes, sizes, order.take(k));
    let lo = prefix_sum(permuted(sizes, order), k);
    let hi = prefix_sum(permuted(sizes, order), k + 1);
    assert(whole.subrange(lo, hi) =~= group_members(nodes, sizes, g)) by {
        assert(upto == before + group_members(nodes, sizes, g));
        assert forall|m: int| 0 <= m < hi - lo implies whole.subrange(lo, hi)[m] == #[trigger] group_members(
            nodes,
            sizes,
            g,
        )[m] by {
            assert(whole[lo + m] == upto[lo + m]);
        }
    }
}

/// Laying out more groups only appends nodes.
proof fn lemma_groups_in_order_prefix(nodes: Seq<usize>, sizes: Seq<usize>, order: Seq<usize>, k: int)
    requires
        groups_fit(sizes, order, nodes.len() as int),
        0 <= k <= order.len(),
    ensures
        groups_in_order(nodes, sizes, order.take(k)).len() <= groups_in_order(nodes, sizes, order).len(),
        forall|m: int|
            0 <= m < groups_in_order(nodes, sizes, order.take(k)).len() ==> #[trigger] groups_in_order(
                nodes,
                sizes,
                order,
            )[m] == groups_in_order(nodes, sizes, order.take(k))[m],
    decreases order.len() - k,
{
    if k < order.len() {
        lemma_groups_in_order_prefix(nodes, sizes, order, k + 1);
        let t = order.take(k + 1);
        assert(t.drop_last() =~= order.take(k));
        let g = order[k] as int;
        assert(t.last() == g);
        lemma_prefix_sum_monotone(sizes, g, g + 1);
    } else {
        assert(order.take(k) =~= order);
    }
}

/// Node moves keep groups: when a permutation keeps the ends of the groups of `sizes` as
/// borders, the node placed at a position of group `g` comes from a position of group `g`.
pub proof fn lemma_nodes_stay_in_group(sizes: Seq<usize>, n: int, perm: Seq<usize>, g: int, k: int)
    requires
        all_positive(sizes),
        total(sizes) == n,
        n <= usize::MAX,
        crate::reducer::is_permutation(perm, n),
        crate::reducer::keeps_borders(crate::reducer::identity(n), perm, group_ends(sizes)),
        0 <= g < sizes.len(),
        prefix_sum(sizes, g) <= k < prefix_sum(sizes, g + 1),
    ensures
        prefix_sum(sizes, g) <= perm[k] < prefix_sum(sizes, g + 1),
{
    let ends = group_ends(sizes);
    lemma_prefix_sum_monotone(sizes, g + 1, sizes.len() as int);
    lemma_prefix_sum_monotone(sizes, g, g + 1);
    assert(sizes[g] > 0);
    assert(ends[g] == prefix_sum(sizes, g + 1) - 1);
    crate::reducer::lemma_no_node_crosses_border(perm, n, ends, g, k);
    if g > 0 {
        lemma_prefix_sum_monotone(sizes, 1, g);
        reveal_with_fuel(prefix_sum, 2);
        assert(sizes[0] > 0);
        assert(prefix_sum(sizes, 1) == sizes[0]);
        assert(ends[g - 1] == prefix_sum(sizes, g) - 1);
        crate::reducer::lemma_no_node_crosses_border(perm, n, ends, g - 1, k);
    }
}

/// A prefix sum is a finite sum.
proof fn lemma_prefix_sum_is_sum(s: Seq<usize>, k: int)
    requires
        0 <= k <= s.len(),
    ensures
        prefix_sum(s, k) == crate::sums::sum(k, |i: int| s[i] as int),
    decreases k,
{
    if k > 0 {
        lemma_prefix_sum_is_sum(s, k - 1);
    }
}

/// Laying out all groups in any order lays out as many nodes as the groups hold.
pub proof fn lemma_groups_in_order_total(nodes: Seq<usize>, sizes: Seq<usize>, order: Seq<usize>)
    requires
        groups_fit(sizes, order, nodes.len() as int),
        crate::reducer::is_permutation(order, sizes.len() as int),
    ensures
        groups_in_order(nodes, sizes, order).len() == total(sizes),
{
    let g = sizes.len() as int;
    lemma_groups_in_order_len(nodes, sizes, order, g);
    assert(order.take(g) =~= order);
    let p = permuted(sizes, order);
    lemma_prefix_sum_is_sum(p, g);
    lemma_prefix_sum_is_sum(sizes, g);
    crate::sums::lemma_sum_ext(g, |i: int| p[i] as int, |k: int| (|i: int| sizes[i] as int)(order[k] as int));
    crate::reducer::lemma_permutation_sum(order, g, |i: int| sizes[i] as int);
}

/// Every position below the total lies in some group of nonempty groups.
proof fn lemma_position_in_some_group(sizes: Seq<usize>, k: int, upto: int) -> (g: int)
    requires
        all_positive(sizes),
        0 <= upto <= sizes.len(),
        0 <= k < prefix_sum(sizes, upto),
    ensures
        0 <= g < upto,
        prefix_sum(sizes, g) <= k < prefix_sum(sizes, g + 1),
    decreases upto,
{
    if upto == 0 {
        0
    } else if k < prefix_sum(sizes, upto - 1) {
        lemma_position_in_some_group(sizes, k, upto - 1)
    } else {
        upto - 1
    }
}

/// A finer group lies inside the coarser group that holds one of its positions.
proof fn lemma_fine_group_inside(fine: Seq<usize>, coarse: Seq<usize>, b: Seq<usize>, g: int, h: int, k: int)
    requires
        is_borders(fine, coarse, b),
        0 <= g < fine.len(),
        0 <= h < coarse.len(),
        prefix_sum(fine, g) <= k < prefix_sum(fine, g + 1),
        prefix_sum(coarse, h) <= k < prefix_sum(coarse, h + 1),
    ensures
        prefix_sum(coarse, h) <= prefix_sum(fine, g),
        prefix_sum(fine, g + 1) <= prefix_sum(coarse, h + 1),
{
    assert(prefix_sum(fine, b[h] + 1) == prefix_sum(coarse, h + 1));
    if g + 1 > b[h] + 1 {
        lemma_prefix_sum_monotone(fine, b[h] + 1, g);
    } else {
        lemma_prefix_sum_monotone(fine, g + 1, b[h] + 1);
    }
    if h > 0 {
        assert(prefix_sum(fine, b[h - 1] + 1) == prefix_sum(coarse, h));
        if b[h - 1] + 1 > g {
            lemma_prefix_sum_monotone(fine, g + 1, b[h - 1] + 1);
        } else {
            lemma_prefix_sum_monotone(fine, b[h - 1] + 1, g);
        }
    } else {
        lemma_prefix_sum_nonneg(fine, g);
    }
}

/// A position of a coarser group that is a union of nonempty finer groups receives a node
/// from that coarser group.
proof fn lemma_node_stays_in_coarse_group(
    fine: Seq<usize>,
    coarse: Seq<usize>,
    b: Seq<usize>,
    n: int,
    perm: Seq<usize>,
    h: int,
    k: int,
)
    requires
        is_borders(fine, coarse, b),
        total(fine) == n,
        total(coarse) == n,
        all_positive(fine),
        n <= usize::MAX,
        crate::reducer::is_permutation(perm, n),
        crate::reducer::keeps_borders(crate::reducer::identity(n), perm, group_ends(fine)),
        0 <= h < coarse.len(),
        prefix_sum(coarse, h) <= k < prefix_sum(coarse, h + 1),
    ensures
        prefix_sum(coarse, h) <= perm[k] < prefix_sum(coarse, h + 1),
{
    lemma_prefix_sum_monotone(coarse, h + 1, coarse.len() as int);
    lemma_prefix_sum_nonneg(coarse, h);
    let g = lemma_position_in_some_group(fine, k, fine.len() as int);
    lemma_nodes_stay_in_group(fine, n, perm, g, k);
    lemma_fine_group_inside(fine, coarse, b, g, h, k);
}

/// Node moves keep groups at every level: when a permutation keeps the ends of the
/// finest groups of a valid hierarchy as borders, the node placed at a position of group
/// `h` of level `l` comes from a position of that same group.
pub proof fn lemma_nodes_stay_in_groups_at_all_levels(
    n: int,
    levels: Seq<Seq<usize>>,
    perm: Seq<usize>,
    l: int,
    h: int,
    k: int,
)
    requires
        valid_hierarchy(n, levels),
        0 <= l < levels.len(),
        all_positive(levels[0]),
        n <= usize::MAX,
        crate::reducer::is_permutation(perm, n),
        crate::reducer::keeps_borders(crate::reducer::identity(n), perm, group_ends(levels[0])),
        0 <= h < levels[l].len(),
        prefix_sum(levels[l], h) <= k < prefix_sum(levels[l], h + 1),
    ensures
        prefix_sum(levels[l], h) <= perm[k] < prefix_sum(levels[l], h + 1),
{
    assert(level_valid(n, levels, 0));
    assert(level_valid(n, levels, l));
    if l == 0 {
        lemma_nodes_stay_in_group(levels[0], n, perm, h, k);
    } else {
        lemma_valid_aligned(n, levels, 0, l);
        let b = choose|b: Seq<usize>| #[trigger] is_borders(levels[0], levels[l], b);
        lemma_node_stays_in_coarse_group(levels[0], levels[l], b, n, perm, h, k);
    }
}

/// With borders kept, the first `b + 1` groups of the new layout are the first `b + 1`
/// groups of the old one, so they hold as many nodes.
proof fn lemma_kept_prefix_total(sizes: Seq<usize>, order: Seq<usize>, borders: Seq<usize>, t: int)
    requires
        crate::reducer::is_permutation(order, sizes.len() as int),
        crate::reducer::keeps_borders(crate::reducer::identity(sizes.len() as int), order, borders),
        sizes.len() <= usize::MAX,
        0 <= t < borders.len(),
        borders[t] < sizes.len(),
    ensures
        prefix_sum(permuted(sizes, order), borders[t] + 1) == prefix_sum(sizes, borders[t] + 1),
{
    let n = sizes.len() as int;
    let b = borders[t] as int;
    let head = order.take(b + 1);
    assert forall|k: int| 0 <= k < b + 1 implies #[trigger] head[k] < b + 1 by {
        crate::reducer::lemma_no_node_crosses_border(order, n, borders, t, k);
    }
    assert(crate::reducer::is_permutation(head, b + 1)) by {
        assert forall|k: int, m: int| 0 <= k < m < b + 1 implies #[trigger] head[k] != #[trigger] head[m] by {
            assert(order[k] != order[m]);
        }
    }
    let p = permuted(sizes, order);
    lemma_prefix_sum_is_sum(p, b + 1);
    lemma_prefix_sum_is_sum(sizes, b + 1);
    let f = |i: int| sizes[i] as int;
    crate::reducer::lemma_permutation_sum(head, b + 1, f);
    crate::sums::lemma_sum_ext(b + 1, |i: int| p[i] as int, |k: int| f(head[k] as int));
}

/// Group moves keep every coarser group whose borders they keep: after the groups of
/// `sizes` are laid out in `order`, the node at a position of coarser group `h` was at a
/// position of that coarser group before.
pub proof fn lemma_group_moves_keep_coarser_groups(
    nodes: Seq<usize>,
    sizes: Seq<usize>,
    coarse: Seq<usize>,
    borders: Seq<usize>,
    order: Seq<usize>,
    h: int,
    x: int,
)
    requires
        all_positive(sizes),
        total(sizes) == nodes.len(),
        is_borders(sizes, coarse, borders),
        sizes.len() <= usize::MAX,
        crate::reducer::is_permutation(order, sizes.len() as int),
        crate::reducer::keeps_borders(crate::reducer::identity(sizes.len() as int), order, borders),
        0 <= h < coarse.len(),
        prefix_sum(coarse, h) <= x < prefix_sum(coarse, h + 1),
    ensures
        exists|y: int|
            prefix_sum(coarse, h) <= y < prefix_sum(coarse, h + 1) && #[trigger] nodes[y]
                == groups_in_order(nodes, sizes, order)[x],
{
    let g = sizes.len() as int;
    let p = permuted(sizes, order);
    assert(groups_fit(sizes, order, nodes.len() as int)) by {
        assert forall|k: int| 0 <= k < order.len() implies #[trigger] order[k] < sizes.len()
            && prefix_sum(sizes, order[k] + 1) <= nodes.len() by {
            lemma_prefix_sum_monotone(sizes, order[k] + 1, g);
        }
    }
    assert(all_positive(p)) by {
        assert forall|k: int| 0 <= k < p.len() implies #[trigger] p[k] > 0 by {
            assert(order[k] < g);
        }
    }
    // The coarser group `h` runs over the new groups (borders[h - 1], borders[h]].
    let lo = if h == 0 { 0 } else { borders[h - 1] + 1 };
    let hi = borders[h] + 1;
    assert(prefix_sum(sizes, hi) == prefix_sum(coarse, h + 1));
    lemma_kept_prefix_total(sizes, order, borders, h);
    if h > 0 {
        assert(prefix_sum(sizes, lo) == prefix_sum(coarse, h));
        lemma_kept_prefix_total(sizes, order, borders, h - 1);
        assert(borders[h - 1] < borders[h]);
    }
    assert(prefix_sum(p, lo) == prefix_sum(coarse, h));
    assert(prefix_sum(p, hi) == prefix_sum(coarse, h + 1));
    // The new group `k` holding position `x`.
    lemma_prefix_sum_nonneg(coarse, h);
    let k = lemma_position_in_some_group(p, x, hi);
    if k < lo {
        lemma_prefix_sum_monotone(p, k + 1, lo);
    }
    assert(lo <= k < hi);
    // Its old group stays inside the coarser group.
    crate::reducer::lemma_no_node_crosses_border(order, g, borders, h, k);
    if h > 0 {
        crate::reducer::lemma_no_node_crosses_border(order, g, borders, h - 1, k);
    }
    let old = order[k] as int;
    assert(lo <= old < hi);
    lemma_prefix_sum_monotone(sizes, lo, old);
    lemma_prefix_sum_monotone(sizes, old + 1, hi);
    // The node at `x` is a node of the old group.
    lemma_groups_move_as_blocks(nodes, sizes, order, k);
    lemma_groups_in_order_len(nodes, sizes, order, g);
    assert(order.take(g) =~= order);
    lemma_groups_in_order_total(nodes, sizes, order);
    lemma_prefix_sum_monotone(p, k + 1, g);
    lemma_prefix_sum_monotone(p, k, k + 1);
    let whole = groups_in_order(nodes, sizes, order);
    assert(whole.len() == prefix_sum(p, g));
    let offset = x - prefix_sum(p, k);
    let y = prefix_sum(sizes, old) + offset;
    assert(0 <= offset < prefix_sum(p, k + 1) - prefix_sum(p, k));
    assert(groups_in_order(nodes, sizes, order)[x] == group_members(
        groups_in_order(nodes, sizes, order),
        p,
        k,
    )[offset]);
    assert(nodes[y] == groups_in_order(nodes, sizes, order)[x]);
}

/// The index of the last node of each nonempty group among the first `k` groups.
pub open spec fn nonempty_group_ends(sizes: Seq<usize>, k: int) -> Seq<usize>
    decreases k,
{
    if k <= 0 {
        Seq::empty()
    } else {
        let prev = nonempty_group_ends(sizes, k - 1);
        if sizes[k - 1] > 0 {
            prev.push((prefix_sum(sizes, k) - 1) as usize)
        } else {
            prev
        }
    }
}

/// The index of the last node of each nonempty group.
pub fn nonempty_end_list(sizes: &[usize]) -> (r: Vec<usize>)
    requires
        total(sizes@) <= usize::MAX,
    ensures
        r@ == nonempty_group_ends(sizes@, sizes@.len() as int),
{
    let mut ends: Vec<usize> = Vec::new();
    let mut acc: usize = 0;
    let mut k: usize = 0;
    while k < sizes.len()
        invariant
            k <= sizes@.len(),
            total(sizes@) <= usize::MAX,
            acc == prefix_sum(sizes@, k as int),
            ends@ == nonempty_group_ends(sizes@, k as int),
        decreases sizes@.len() - k,
    {
        proof {
            lemma_prefix_sum_monotone(sizes@, k + 1, sizes@.len() as int);
        }
        acc = acc + sizes[k];
        if sizes[k] > 0 {
            ends.push(acc - 1);
        }
        k = k + 1;
    }
    ends
}

/// When no group is empty, the ends of the nonempty groups are the ends of all groups.
pub proof fn lemma_nonempty_ends_all(sizes: Seq<usize>, k: int)
    requires
        all_positive(sizes),
        0 <= k <= sizes.len(),
    ensures
        nonempty_group_ends(sizes, k) == group_ends(sizes).take(k),
    decreases k,
{
    if k > 0 {
        lemma_nonempty_ends_all(sizes, k - 1);
        assert(sizes[k - 1] > 0);
        assert(group_ends(sizes).take(k) =~= group_ends(sizes).take(k - 1).push(
            (prefix_sum(sizes, k) - 1) as usize,
        ));
    } else {
        assert(group_ends(sizes).take(0) =~= Seq::<usize>::empty());
    }
}

/// Where the node at position `x` of the new layout comes from: new group `k` holds it, and
/// it sits at old position `y` of old group `order[k]`, at the same offset.
proof fn lemma_block_source(nodes: Seq<usize>, sizes: Seq<usize>, order: Seq<usize>, x: int) -> (ky: (int, int))
    requires
        all_positive(sizes),
        total(sizes) == nodes.len(),
        sizes.len() <= usize::MAX,
        crate::reducer::is_permutation(order, sizes.len() as int),
        0 <= x < nodes.len(),
    ensures
        0 <= ky.0 < sizes.len(),
        prefix_sum(sizes, order[ky.0] as int) <= ky.1 < prefix_sum(sizes, order[ky.0] + 1),
        ky.1 - prefix_sum(sizes, order[ky.0] as int) == x - prefix_sum(permuted(sizes, order), ky.0),
        groups_in_order(nodes, sizes, order)[x] == nodes[ky.1],
        0 <= ky.1 < nodes.len(),
{
    let g = sizes.len() as int;
    let p = permuted(sizes, order);
    assert(groups_fit(sizes, order, nodes.len() as int)) by {
        assert forall|k: int| 0 <= k < order.len() implies #[trigger] order[k] < sizes.len()
            && prefix_sum(sizes, order[k] + 1) <= nodes.len() by {
            lemma_prefix_sum_monotone(sizes, order[k] + 1, g);
        }
    }
    assert(all_positive(p)) by {
        assert forall|k: int| 0 <= k < p.len() implies #[trigger] p[k] > 0 by {
            assert(order[k] < g);
        }
    }
    lemma_groups_in_order_len(nodes, sizes, order, g);
    assert(order.take(g) =~= order);
    lemma_groups_in_order_total(nodes, sizes, order);
    let k = lemma_position_in_some_group(p, x, g);
    lemma_groups_move_as_blocks(nodes, sizes, order, k);
    lemma_prefix_sum_monotone(p, k + 1, g);
    lemma_prefix_sum_monotone(p, k, k + 1);
    let old = order[k] as int;
    lemma_prefix_sum_monotone(sizes, old + 1, g);
    lemma_prefix_sum_monotone(sizes, old, old + 1);
    let whole = groups_in_order(nodes, sizes, order);
    let offset = x - prefix_sum(p, k);
    let y = prefix_sum(sizes, old) + offset;
    lemma_prefix_sum_nonneg(sizes, old);
    assert(whole[x] == group_members(whole, p, k)[offset]);
    (k, y)
}

/// Laying out the groups of a permutation in a permuted order gives a permutation.
pub proof fn lemma_groups_in_order_permutation(nodes: Seq<usize>, sizes: Seq<usize>, order: Seq<usize>)
    requires
        all_positive(sizes),
        total(sizes) == nodes.len(),
        sizes.len() <= usize::MAX,
        nodes.len() <= usize::MAX,
        crate::reducer::is_permutation(nodes, nodes.len() as int),
        crate::reducer::is_permutation(order, sizes.len() as int),
    ensures
        crate::reducer::is_permutation(groups_in_order(nodes, sizes, order), nodes.len() as int),
{
    let n = nodes.len() as int;
    let g = sizes.len() as int;
    let whole = groups_in_order(nodes, sizes, order);
    assert(groups_fit(sizes, order, n)) by {
        assert forall|k: int| 0 <= k < order.len() implies #[trigger] order[k] < sizes.len()
            && prefix_sum(sizes, order[k] + 1) <= n by {
            lemma_prefix_sum_monotone(sizes, order[k] + 1, g);
        }
    }
    lemma_groups_in_order_total(nodes, sizes, order);
    lemma_groups_in_order_entries(nodes, sizes, order, n);
    assert forall|x1: int, x2: int| 0 <= x1 < x2 < n implies #[trigger] whole[x1] != #[trigger] whole[x2] by {
        let (k1, y1) = lemma_block_source(nodes, sizes, order, x1);
        let (k2, y2) = lemma_block_source(nodes, sizes, order, x2);
        if k1 != k2 {
            let o1 = order[k1] as int;
            let o2 = order[k2] as int;
            if k1 < k2 {
                assert(order[k1] != order[k2]);
            } else {
                assert(order[k2] != order[k1]);
            }
            if o1 < o2 {
                lemma_prefix_sum_monotone(sizes, o1 + 1, o2);
            } else {
                lemma_prefix_sum_monotone(sizes, o2 + 1, o1);
            }
        }
        assert(y1 != y2);
        if y1 < y2 {
            assert(nodes[y1] != nodes[y2]);
        } else {
            assert(nodes[y2] != nodes[y1]);
        }
    }
}

} // verus!
