//! Sizes of a network that can be reduced: which can be selected, and what is
//! selected.

use crate::laws::slices::{
    array_slice, array_within, film_ungrouped, kept_weights_are_a_slice, kept_weights_are_enough,
    layer_like, layer_slice, layer_within, net_slice,
};
use crate::num::{Sample, Scalar};
use crate::pure::array_config::{array_spec_wf, head_rows, ArraySpec};
use crate::pure::assemble::{
    array_error, array_plan, layer_error, layer_plan, layers_error, part_error, parts_error,
    slot_plan,
};
use crate::pure::film::amounts;
use crate::pure::layer::z_rows;
use crate::pure::layer_array::{array_reach, layers_reach, ArrayModel};
use crate::pure::net::{net_reach, stacks_reach, NetModel};
use crate::pure::net_build::{
    condition_error, net_count, net_from, net_of, stacks_error, wiring_error,
};
use crate::pure::plan::{film_dim, ArrayPlan, LayerPlan};
use crate::pure::slim::{
    bottleneck_for, bottleneck_sound, channels_for, count_fits, even_lists, full_channels,
    has_choice, has_longer, lemma_counts_each, lemma_sizes_each, lemma_stacks_each, reduced_counts,
    rows_for, sizes_in_order, slim_condition, slim_model_wf, slim_net, slim_sound, slim_spec,
    slim_specs, step_index, SlimModel,
};
use crate::pure::slim_config::{allowed_wf, lemma_slims_each, slim_error};
use crate::pure::slim_weights::{net_cut, slimmed_weights};
use vstd::arithmetic::mul::*;
use vstd::prelude::*;

verus! {

// Which sizes can be selected ================================================

/// The stacks fit each other at a size: no stack is given more than it has
/// weights for, and each adds to as many channels as the stack before leaves.
pub open spec fn size_fits<S>(arrays: Seq<ArraySpec<S>>, targets: Seq<usize>) -> bool {
    &&& slim_sound(arrays, targets)
    &&& forall|i: int| 0 <= i < arrays.len() ==> stack_fits(arrays, targets, i)
}

/// Stack `i` fits the one before.
pub open spec fn stack_fits<S>(arrays: Seq<ArraySpec<S>>, targets: Seq<usize>, i: int) -> bool {
    &&& arrays[i].dilations.len() > 0 ==> bottleneck_for(arrays[i], targets[i] as nat)
        <= arrays[i].bottleneck
    &&& rows_for(arrays[i], targets[i] as nat) <= head_rows(arrays[i])
    &&& i > 0 ==> {
        &&& targets[i] == head_rows(slim_spec(arrays, targets, i))
        &&& targets[i - 1] <= arrays[i].input_size
    }
}

/// A ratio selects for each stack one of its sizes, and no more channels than
/// there are; a stack without sizes keeps all.
pub proof fn sizes_are_within<S: Scalar>(m: SlimModel<S>, val: S::Wide, i: int)
    requires
        slim_model_wf(m),
        0 <= i < m.arrays.len(),
    ensures
        channels_for(m, val).len() == m.arrays.len(),
        channels_for(m, val)[i] <= m.arrays[i].channels,
        if m.allowed[i].len() > 0 {
            m.allowed[i].contains(channels_for(m, val)[i])
        } else {
            channels_for(m, val)[i] == m.arrays[i].channels
        },
{
    let list = m.allowed[i];
    assert(allowed_wf(list, m.arrays[i].channels));
    if list.len() > 0 {
        let k = step_index(val, list.len());
        assert(list.contains(list[k]));
        if k < list.len() - 1 {
            assert(list[k] < list[list.len() - 1]);
        }
    }
}

/// What can be made of more channels can be made of fewer.
proof fn lemma_part_within<S>(q: LayerPlan<S>, p: LayerPlan<S>, k: int)
    requires
        layer_within(q, p),
        0 <= k < 12,
        part_error(p, k) is None,
    ensures
        part_error(q, k) is None,
{
    let full = z_rows(p.gating, p.bottleneck);
    let slim = z_rows(q.gating, q.bottleneck);
    lemma_product_within(q.channels, p.channels, slim, full);
    lemma_product_within(q.condition, p.condition, slim, full);
    lemma_product_within(q.bottleneck, p.bottleneck, q.channels, p.channels);
    if let Some((out, _)) = p.head1x1 {
        lemma_product_within(q.bottleneck, p.bottleneck, out, out);
    }
    if k >= 4 {
        assert(film_ungrouped(p.films[k - 4]));
        if let Some((shift, _)) = p.films[k - 4] {
            lemma_product_within(
                q.condition,
                p.condition,
                amounts(film_dim(q, k - 4), shift),
                amounts(film_dim(p, k - 4), shift),
            );
        }
    }
}

/// A product of smaller numbers is smaller.
proof fn lemma_product_within(a: nat, b: nat, c: nat, d: nat)
    requires
        a <= b,
        c <= d,
    ensures
        a * c <= b * d,
        a % 1 == 0,
        c % 1 == 0,
{
    lemma_mul_upper_bound(a as int, b as int, c as int, d as int);
}

/// Where parts can be made, smaller ones can.
proof fn lemma_parts_within<S>(q: LayerPlan<S>, p: LayerPlan<S>, k: nat)
    requires
        layer_within(q, p),
        k <= 12,
        parts_error(p, k) is None,
    ensures
        parts_error(q, k) is None,
    decreases k,
{
    if k > 0 {
        lemma_parts_within(q, p, (k - 1) as nat);
        lemma_part_within(q, p, k - 1);
    }
}

/// Where layers can be made, smaller ones can.
proof fn lemma_layers_within<S>(q: Seq<LayerPlan<S>>, p: Seq<LayerPlan<S>>, k: nat)
    requires
        q.len() == p.len(),
        k <= p.len(),
        forall|i: int| 0 <= i < p.len() ==> layer_within(q[i], #[trigger] p[i]),
        layers_error(p, k) is None,
    ensures
        layers_error(q, k) is None,
    decreases k,
{
    if k > 0 {
        lemma_layers_within(q, p, (k - 1) as nat);
        assert(layer_within(q[k - 1], p[k - 1]));
        lemma_parts_within(q[k - 1], p[k - 1], 12);
        assert(layer_error(q[k - 1]) is None);
    }
}

/// Where a stack can be made, a smaller one can.
proof fn lemma_array_within<S>(q: ArrayPlan<S>, p: ArrayPlan<S>)
    requires
        array_within(q, p),
        array_error(p) is None,
    ensures
        array_error(q) is None,
{
    lemma_layers_within(q.layers, p.layers, p.layers.len());
    lemma_product_within(q.input, p.input, q.channels, p.channels);
    lemma_product_within(q.head_rows, p.head_rows, q.head_size, p.head_size);
}

/// Where all stacks can be made, each leaves as many channels as the next adds
/// to.
proof fn lemma_chained<S>(arrays: Seq<ArraySpec<S>>, n: nat, k: int)
    requires
        0 < k < n,
        stacks_error(arrays, n) is None,
    ensures
        arrays[k - 1].head_size == head_rows(arrays[k]),
    decreases n,
{
    if k < n - 1 {
        lemma_chained(arrays, (n - 1) as nat, k);
    }
}

/// The shape of a layer at another size.
pub proof fn lemma_spec_like<S>(
    arrays: Seq<ArraySpec<S>>,
    targets: Seq<usize>,
    i: int,
    li: int,
)
    requires
        slim_error(arrays[i]) is None,
        array_spec_wf(arrays[i]),
        0 <= li < arrays[i].dilations.len(),
    ensures
        layer_like(
            layer_plan(slim_spec(arrays, targets, i), li),
            layer_plan(arrays[i], li),
        ),
{
    let full = arrays[i];
    let a = layer_plan(full, li);
    let b = layer_plan(slim_spec(arrays, targets, i), li);
    assert(a.films =~= b.films);
    assert forall|k: int| 0 <= k < 8 implies film_ungrouped(#[trigger] a.films[k]) by {
        assert(a.films[k] == slot_plan(full, k));
        assert(full.films[k].active ==> full.films[k].groups == 1);
    }
}

/// The shape of a stack at a smaller size.
proof fn lemma_spec_within<S: Scalar>(m: SlimModel<S>, targets: Seq<usize>, i: int)
    requires
        slim_model_wf(m),
        forall|k: int| 0 <= k < m.arrays.len() ==> array_spec_wf(#[trigger] m.arrays[k]),
        targets.len() == m.arrays.len(),
        forall|k: int| 0 <= k < targets.len() ==> #[trigger] targets[k] <= m.arrays[k].channels,
        size_fits(m.arrays, targets),
        0 <= i < m.arrays.len(),
    ensures
        array_within(array_plan(slim_spec(m.arrays, targets, i)), array_plan(m.arrays[i])),
{
    let full = m.arrays[i];
    let slim = slim_spec(m.arrays, targets, i);
    let n = m.arrays.len();
    lemma_slims_each(m.arrays, n, i);
    assert(array_spec_wf(full));
    assert(stack_fits(m.arrays, targets, i));
    assert(targets[i] <= full.channels);
    let p = array_plan(full);
    let q = array_plan(slim);
    assert forall|li: int| 0 <= li < p.layers.len() implies layer_within(
        q.layers[li],
        #[trigger] p.layers[li],
    ) by {
        lemma_spec_like(m.arrays, targets, i, li);
    }
    if i < n - 1 {
        lemma_chained(m.arrays, n, i + 1);
        assert(stack_fits(m.arrays, targets, i + 1));
    }
}

/// All stacks can be made at a size that fits.
proof fn lemma_slim_stacks<S: Scalar>(m: SlimModel<S>, targets: Seq<usize>, k: nat)
    requires
        slim_model_wf(m),
        forall|i: int| 0 <= i < m.arrays.len() ==> array_spec_wf(#[trigger] m.arrays[i]),
        targets.len() == m.arrays.len(),
        forall|i: int| 0 <= i < targets.len() ==> #[trigger] targets[i] <= m.arrays[i].channels,
        size_fits(m.arrays, targets),
        k <= m.arrays.len(),
    ensures
        stacks_error(slim_specs(m.arrays, targets), k) is None,
    decreases k,
{
    if k > 0 {
        let i = k - 1;
        lemma_slim_stacks(m, targets, i as nat);
        lemma_spec_within(m, targets, i);
        lemma_stacks_each(m.arrays, m.arrays.len(), i);
        lemma_array_within(
            array_plan(slim_spec(m.arrays, targets, i)),
            array_plan(m.arrays[i]),
        );
        assert(stack_fits(m.arrays, targets, i));
    }
}

/// The condition fits the stacks at every size.
proof fn lemma_condition_kept<S>(
    full: Seq<ArraySpec<S>>,
    slim: Seq<ArraySpec<S>>,
    outputs: nat,
    i: nat,
)
    requires
        slim.len() == full.len(),
        forall|k: int|
            0 <= k < full.len() ==> (#[trigger] slim[k]).condition_size == full[k].condition_size,
    ensures
        condition_error(slim, outputs, i) == condition_error(full, outputs, i),
    decreases full.len() - i,
{
    if i < full.len() {
        lemma_condition_kept(full, slim, outputs, i + 1);
    }
}

/// A slice looks back as far as the whole.
proof fn lemma_slice_reach<S>(a: NetModel<S>, b: NetModel<S>)
    requires
        net_slice(a, b),
    ensures
        net_reach(a) == net_reach(b),
{
    lemma_slice_stacks_reach(a, b, a.arrays.len());
    assert(a.arrays.take(a.arrays.len() as int) =~= a.arrays);
    assert(b.arrays.take(b.arrays.len() as int) =~= b.arrays);
}

/// The stacks of a slice look back as far as those of the whole.
proof fn lemma_slice_stacks_reach<S>(a: NetModel<S>, b: NetModel<S>, k: nat)
    requires
        net_slice(a, b),
        k <= a.arrays.len(),
    ensures
        stacks_reach(a.arrays.take(k as int)) == stacks_reach(b.arrays.take(k as int)),
    decreases k,
{
    if k > 0 {
        let i = k - 1;
        lemma_slice_stacks_reach(a, b, i as nat);
        assert(a.arrays.take(k as int).drop_last() =~= a.arrays.take(i));
        assert(b.arrays.take(k as int).drop_last() =~= b.arrays.take(i));
        let x = a.arrays[i];
        let y = b.arrays[i];
        assert(array_slice(x, y));
        lemma_slice_layers_reach(x, y, x.layers.len());
        assert(x.layers.take(x.layers.len() as int) =~= x.layers);
        assert(y.layers.take(y.layers.len() as int) =~= y.layers);
        assert(array_reach(x) == array_reach(y));
    }
}

/// The layers of a slice look back as far as those of the whole.
proof fn lemma_slice_layers_reach<S>(
    a: ArrayModel<S>,
    b: ArrayModel<S>,
    k: nat,
)
    requires
        array_slice(a, b),
        k <= a.layers.len(),
    ensures
        layers_reach(a.layers.take(k as int)) == layers_reach(b.layers.take(k as int)),
    decreases k,
{
    if k > 0 {
        let i = k - 1;
        lemma_slice_layers_reach(a, b, i as nat);
        assert(a.layers.take(k as int).drop_last() =~= a.layers.take(i));
        assert(b.layers.take(k as int).drop_last() =~= b.layers.take(i));
        assert(layer_slice(a.layers[i], b.layers[i]));
    }
}

/// A size that fits can be selected, and the network with it is a slice of the
/// full one.
pub proof fn sizes_can_be_selected<S: Scalar>(m: SlimModel<S>, targets: Seq<usize>)
    requires
        slim_model_wf(m),
        forall|i: int| 0 <= i < m.arrays.len() ==> array_spec_wf(#[trigger] m.arrays[i]),
        targets.len() == m.arrays.len(),
        forall|i: int| 0 <= i < targets.len() ==> #[trigger] targets[i] <= m.arrays[i].channels,
        targets != full_channels(m.arrays) ==> size_fits(m.arrays, targets),
    ensures
        slim_net(m, targets) is Ok,
        targets != full_channels(m.arrays) ==> net_slice(
            slim_net(m, targets)->Ok_0,
            slim_net(m, full_channels(m.arrays))->Ok_0,
        ),
{
    if targets != full_channels(m.arrays) {
        let full = m.arrays;
        let slim = slim_specs(full, targets);
        let condition = slim_condition::<S>(m.condition)->Ok_0;
        let inputs = m.inputs as nat;
        assert(net_of(inputs, full, None, condition, m.weights) is Ok);
        assert(slimmed_weights(full, slim, m.weights) is Ok);
        if let Some(cd) = condition {
            lemma_condition_kept(full, slim, cd.outputs, 0);
        }
        assert(wiring_error(inputs, slim, condition) is None);
        lemma_slim_stacks(m, targets, full.len());
        assert forall|i: int| 0 <= i < full.len() implies array_within(
            array_plan(slim[i]),
            array_plan(#[trigger] full[i]),
        ) by {
            lemma_spec_within(m, targets, i);
        }
        kept_weights_are_enough(full, slim, m.weights);
        kept_weights_are_a_slice(inputs, full, slim, condition, m.weights);
        let small = net_cut(full, slim, m.weights);
        lemma_slice_reach(
            net_from(inputs, slim, None, condition, small),
            net_from(inputs, full, None, condition, m.weights),
        );
    }
}

/// A reduced size that a ratio selects fits.
pub proof fn selected_size_fits<S: Scalar>(m: SlimModel<S>, val: S::Wide)
    requires
        slim_model_wf(m),
        sizes_in_order(m),
        channels_for(m, val) != full_channels(m.arrays),
    ensures
        size_fits(m.arrays, channels_for(m, val)),
{
    let targets = channels_for(m, val);
    let n = m.arrays.len();
    assert(has_choice(m.allowed)) by {
        if !has_choice(m.allowed) {
            assert forall|i: int| 0 <= i < n implies #[trigger] targets[i] == full_channels(
                m.arrays,
            )[i] by {
                assert(allowed_wf(m.allowed[i], m.arrays[i].channels));
                assert(m.allowed[i].len() <= 1);
            }
            assert(targets =~= full_channels(m.arrays));
        }
    }
    assert forall|i: int| 0 <= i < n implies #[trigger] count_fits(m.arrays, i, targets[i]) by {
        let counts = reduced_counts(m.arrays, m.allowed, i);
        lemma_sizes_each(m.arrays, m.allowed, n, i);
        lemma_count_occurs(m, val, i);
        let k = choose|k: int| 0 <= k < counts.len() && counts[k] == targets[i];
        lemma_counts_each(m.arrays, counts, i, counts.len(), k);
    }
    assert forall|i: int| 0 <= i < n implies bottleneck_sound(
        #[trigger] m.arrays[i],
        targets[i] as nat,
    ) by {
        assert(count_fits(m.arrays, i, targets[i]));
    }
    assert forall|i: int| 0 <= i < n implies stack_fits(m.arrays, targets, i) by {
        assert(count_fits(m.arrays, i, targets[i]));
        if i > 0 {
            assert(count_fits(m.arrays, i - 1, targets[i - 1]));
        }
    }
}

/// What a stack has in a reduced network is one of the counts that are checked.
proof fn lemma_count_occurs<S: Scalar>(m: SlimModel<S>, val: S::Wide, i: int)
    requires
        slim_model_wf(m),
        sizes_in_order(m),
        channels_for(m, val) != full_channels(m.arrays),
        0 <= i < m.arrays.len(),
    ensures
        exists|k: int|
            0 <= k < reduced_counts(m.arrays, m.allowed, i).len() && reduced_counts(
                m.arrays,
                m.allowed,
                i,
            )[k] == channels_for(m, val)[i],
{
    let targets = channels_for(m, val);
    let counts = reduced_counts(m.arrays, m.allowed, i);
    let len = m.allowed[i].len();
    if len == 0 {
        assert(counts[0] == targets[i]);
    } else {
        let k = step_index(val, len);
        if k == len - 1 && !has_longer(m.allowed, len) {
            assert forall|j: int| 0 <= j < m.arrays.len() implies #[trigger] targets[j]
                == full_channels(m.arrays)[j] by {
                assert(allowed_wf(m.allowed[j], m.arrays[j].channels));
                let few = m.allowed[j].len();
                assert(few <= len);
                if few > 1 && !even_lists(m.allowed) {
                    assert(val.step_of_spec(len as usize) >= len - 1);
                    assert(val.step_of_spec(few as usize) >= few - 1);
                }
            }
            assert(targets =~= full_channels(m.arrays));
        }
        assert(counts[k] == targets[i]);
    }
}

/// Every ratio can be selected: what a loaded network says it can be reduced to
/// can be built.
pub proof fn every_ratio_can_be_selected<S: Scalar>(m: SlimModel<S>, val: S::Wide)
    requires
        slim_model_wf(m),
        forall|i: int| 0 <= i < m.arrays.len() ==> array_spec_wf(#[trigger] m.arrays[i]),
        sizes_in_order(m),
    ensures
        slim_net(m, channels_for(m, val)) is Ok,
{
    let targets = channels_for(m, val);
    assert forall|i: int| 0 <= i < targets.len() implies #[trigger] targets[i]
        <= m.arrays[i].channels by {
        sizes_are_within(m, val, i);
    }
    if targets != full_channels(m.arrays) {
        selected_size_fits(m, val);
    }
    sizes_can_be_selected(m, targets);
}

/// Only sizes at which the stacks fit each other can be selected: a smaller
/// size can be computed for every stack, and each adds to as many channels as
/// the stack before leaves.
pub proof fn selected_sizes_fit<S: Scalar>(m: SlimModel<S>, targets: Seq<usize>, i: int)
    requires
        targets != full_channels(m.arrays),
        slim_net(m, targets) is Ok,
        0 < i < m.arrays.len(),
    ensures
        slim_sound(m.arrays, targets),
        targets[i] == head_rows(slim_spec(m.arrays, targets, i)),
        net_cut(m.arrays, slim_specs(m.arrays, targets), m.weights).len() == net_count(
            slim_specs(m.arrays, targets),
            None,
        ),
{
    let slim = slim_specs(m.arrays, targets);
    lemma_chained(slim, slim.len(), i);
    assert(slim[i - 1] == slim_spec(m.arrays, targets, i - 1));
}

} // verus!
