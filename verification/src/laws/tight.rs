//! Which sizes cannot be selected: a part that is given more than it has weights
//! for is short of weights, and nothing makes up for it.

use crate::laws::sizes::{lemma_spec_like, selected_sizes_fit, size_fits, stack_fits};
use crate::laws::slices::{film_ungrouped, layer_like, lemma_counts, lemma_cut};
use crate::num::Scalar;
use crate::pure::array_config::{array_spec_wf, head_rows, ArraySpec};
use crate::pure::film::amounts;
use crate::pure::layer::z_rows;
use crate::pure::net_build::{array_plans, lemma_stacks_start, stacks_start};
use crate::pure::plan::{
    array_count, array_start, film_dim, layers_start, part_count, part_start, ArrayPlan, LayerPlan,
};
use crate::pure::slim::{
    bottleneck_for, bottleneck_sound, full_channels, slim_base_wf, slim_net, slim_sound, slim_specs,
    SlimModel,
};
use crate::pure::slim_config::lemma_slims_each;
use crate::pure::slim_extract::{block, block_count, lesser};
use crate::pure::slim_weights::{array_cut, layer_cut, layers_cut, part_cut, stacks_cut};
use vstd::arithmetic::div_mod::lemma_div_is_ordered_by_denominator;
use vstd::arithmetic::mul::*;
use vstd::prelude::*;

verus! {

/// A block has at most the weights that are asked for, and fewer where there
/// are too few outputs with a bias, or too few inputs of a block with outputs.
proof fn lemma_block_most<S>(
    data: Seq<S>,
    pos: int,
    full_in: nat,
    full_out: nat,
    slim_in: nat,
    slim_out: nat,
    taps: nat,
    bias: bool,
)
    requires
        0 <= pos,
        pos + block_count(full_in, full_out, taps, bias) <= data.len(),
    ensures
        ({
            let b = block(data, pos, full_in, full_out, slim_in, slim_out, taps, bias);
            let asked = block_count(slim_in, slim_out, taps, bias);
            &&& b.len() <= asked
            &&& bias && slim_out > full_out ==> b.len() < asked
            &&& taps >= 1 && slim_out >= 1 && slim_in > full_in ==> b.len() < asked
        }),
{
    let rows = lesser(slim_out, full_out);
    let ins = lesser(slim_in, full_in);
    let row = full_in * taps;
    let keep = ins * taps;
    lemma_mul_inequality(ins as int, full_in as int, taps as int);
    lemma_mul_inequality(rows as int, full_out as int, row as int);
    lemma_cut(data, pos, row, keep, rows);
    lemma_mul_inequality(ins as int, slim_in as int, taps as int);
    lemma_mul_upper_bound(rows as int, slim_out as int, keep as int, (slim_in * taps) as int);
    if taps >= 1 && slim_out >= 1 && slim_in > full_in {
        let asked = slim_in * taps;
        assert(keep < asked) by (nonlinear_arith)
            requires
                keep == ins * taps,
                asked == slim_in * taps,
                ins < slim_in,
                taps >= 1,
        ;
        assert(rows * keep < slim_out * asked) by (nonlinear_arith)
            requires
                0 <= rows <= slim_out,
                slim_out >= 1,
                0 <= keep < asked,
        ;
    }
}

/// A part keeps at most what is asked for; the convolution of a layer keeps
/// less where more channels after the activation are asked for than there are.
proof fn lemma_part_most<S>(p: LayerPlan<S>, q: LayerPlan<S>, data: Seq<S>, pos: int, k: int)
    requires
        layer_like(q, p),
        0 <= k < 12,
        0 <= pos,
        pos + part_start(p, k as nat) + part_count(p, k) <= data.len(),
    ensures
        part_cut(p, q, data, pos, k).len() <= part_count(q, k),
        k == 0 && q.bottleneck > p.bottleneck ==> part_cut(p, q, data, pos, k).len()
            < part_count(q, k),
{
    let at = pos + part_start(p, k as nat);
    let full = z_rows(p.gating, p.bottleneck);
    let slim = z_rows(q.gating, q.bottleneck);
    if k == 0 {
        lemma_counts(p.channels, full, p.kernel, true);
        lemma_counts(q.channels, slim, p.kernel, true);
        lemma_block_most(data, at, p.channels, full, q.channels, slim, p.kernel, true);
    } else if k == 1 {
        lemma_counts(p.condition, full, 1, false);
        lemma_counts(q.condition, slim, 1, false);
        lemma_block_most(data, at, p.condition, full, q.condition, slim, 1, false);
    } else if k == 2 {
        if p.layer1x1 is Some {
            lemma_counts(p.bottleneck, p.channels, 1, true);
            lemma_counts(q.bottleneck, q.channels, 1, true);
            lemma_block_most(
                data,
                at,
                p.bottleneck,
                p.channels,
                q.bottleneck,
                q.channels,
                1,
                true,
            );
        }
    } else if k == 3 {
        if let Some((out, _)) = p.head1x1 {
            lemma_counts(p.bottleneck, out, 1, true);
            lemma_counts(q.bottleneck, out, 1, true);
            lemma_block_most(data, at, p.bottleneck, out, q.bottleneck, out, 1, true);
        }
    } else {
        assert(film_ungrouped(p.films[k - 4]));
        if let Some((shift, _)) = p.films[k - 4] {
            let a = amounts(film_dim(p, k - 4), shift);
            let b = amounts(film_dim(q, k - 4), shift);
            lemma_counts(p.condition, a, 1, true);
            lemma_counts(q.condition, b, 1, true);
            lemma_block_most(data, at, p.condition, a, q.condition, b, 1, true);
        }
    }
}

/// The first parts of a layer keep at most what is asked for.
proof fn lemma_layer_most<S>(p: LayerPlan<S>, q: LayerPlan<S>, data: Seq<S>, pos: int, k: nat)
    requires
        layer_like(q, p),
        k <= 12,
        0 <= pos,
        pos + part_start(p, k) <= data.len(),
    ensures
        layer_cut(p, q, data, pos, k).len() <= part_start(q, k),
        k >= 1 && q.bottleneck > p.bottleneck ==> layer_cut(p, q, data, pos, k).len()
            < part_start(q, k),
    decreases k,
{
    if k > 0 {
        lemma_layer_most(p, q, data, pos, (k - 1) as nat);
        lemma_part_most(p, q, data, pos, k - 1);
    }
}

/// The first layers of a stack keep at most what is asked for.
proof fn lemma_layers_most<S>(
    p: Seq<LayerPlan<S>>,
    q: Seq<LayerPlan<S>>,
    data: Seq<S>,
    pos: int,
    k: nat,
)
    requires
        k <= p.len(),
        p.len() == q.len(),
        forall|i: int| 0 <= i < p.len() ==> layer_like(q[i], #[trigger] p[i]),
        0 <= pos,
        pos + layers_start(p, k) <= data.len(),
    ensures
        layers_cut(p, q, data, pos, k).len() <= layers_start(q, k),
        k >= 1 && q[0].bottleneck > p[0].bottleneck ==> layers_cut(p, q, data, pos, k).len()
            < layers_start(q, k),
    decreases k,
{
    if k > 0 {
        let j = (k - 1) as nat;
        lemma_layers_most(p, q, data, pos, j);
        assert(layer_like(q[k - 1], p[k - 1]));
        lemma_layer_most(p[k - 1], q[k - 1], data, pos + layers_start(p, j), 12);
    }
}

/// The shape of a stack is that of another with other channels.
pub open spec fn array_like<S>(q: ArrayPlan<S>, p: ArrayPlan<S>) -> bool {
    &&& q.layers.len() == p.layers.len()
    &&& forall|i: int| 0 <= i < p.layers.len() ==> layer_like(q.layers[i], #[trigger] p.layers[i])
    &&& q.head_kernel == p.head_kernel
    &&& p.head_kernel == 1
    &&& q.head_bias == p.head_bias
}

/// A stack keeps at most what is asked for, and less where one of its layers or
/// its first part is given more than it has weights for.
proof fn lemma_array_most<S>(p: ArrayPlan<S>, q: ArrayPlan<S>, data: Seq<S>, pos: int)
    requires
        array_like(q, p),
        0 <= pos,
        pos + array_count(p) <= data.len(),
    ensures
        array_cut(p, q, data, pos).len() <= array_count(q),
        q.channels >= 1 && q.input > p.input ==> array_cut(p, q, data, pos).len() < array_count(q),
        p.layers.len() >= 1 && q.layers[0].bottleneck > p.layers[0].bottleneck ==> array_cut(
            p,
            q,
            data,
            pos,
        ).len() < array_count(q),
        q.head_size >= 1 && q.head_rows > p.head_rows ==> array_cut(p, q, data, pos).len()
            < array_count(q),
{
    let n = p.layers.len();
    lemma_counts(p.input, p.channels, 1, false);
    lemma_counts(q.input, q.channels, 1, false);
    lemma_counts(p.head_rows, p.head_size, 1, p.head_bias);
    lemma_counts(q.head_rows, q.head_size, 1, p.head_bias);
    lemma_block_most(data, pos, p.input, p.channels, q.input, q.channels, 1, false);
    lemma_layers_most(p.layers, q.layers, data, pos + array_start(p, 0), n);
    lemma_block_most(
        data,
        pos + array_start(p, n),
        p.head_rows,
        p.head_size,
        q.head_rows,
        q.head_size,
        1,
        p.head_bias,
    );
}

/// Stacks keep at most what is asked for, and less where one of them does.
proof fn lemma_stacks_most<S>(
    p: Seq<ArrayPlan<S>>,
    q: Seq<ArrayPlan<S>>,
    data: Seq<S>,
    k: nat,
    i: int,
)
    requires
        k <= p.len(),
        p.len() == q.len(),
        forall|e: int| 0 <= e < p.len() ==> array_like(q[e], #[trigger] p[e]),
        stacks_start(p, k) <= data.len(),
    ensures
        stacks_cut(p, q, data, k).len() <= stacks_start(q, k),
        0 <= i < k && array_cut(p[i], q[i], data, stacks_start(p, i as nat) as int).len()
            < array_count(q[i]) ==> stacks_cut(p, q, data, k).len() < stacks_start(q, k),
    decreases k,
{
    if k > 0 {
        let j = (k - 1) as nat;
        lemma_stacks_most(p, q, data, j, i);
        lemma_array_most(p[k - 1], q[k - 1], data, stacks_start(p, j) as int);
    }
}

/// Only sizes that fit can be selected, where every stack keeps a channel and the
/// last writes one.
pub proof fn only_fitting_sizes<S: Scalar>(m: SlimModel<S>, targets: Seq<usize>)
    requires
        slim_base_wf(m),
        forall|i: int| 0 <= i < m.arrays.len() ==> array_spec_wf(#[trigger] m.arrays[i]),
        targets.len() == m.arrays.len(),
        targets != full_channels(m.arrays),
        m.arrays.last().head_size >= 1,
        forall|i: int| 0 <= i < targets.len() ==> #[trigger] targets[i] >= 1,
        slim_net(m, targets) is Ok,
    ensures
        size_fits(m.arrays, targets),
{
    let full = m.arrays;
    let slim = slim_specs(full, targets);
    let p = array_plans(full);
    let q = array_plans(slim);
    let n = full.len();
    assert forall|i: int| 0 <= i < n implies array_like(q[i], #[trigger] p[i]) by {
        lemma_slims_each(full, n, i);
        assert forall|li: int| 0 <= li < p[i].layers.len() implies layer_like(
            q[i].layers[li],
            #[trigger] p[i].layers[li],
        ) by {
            lemma_spec_like(full, targets, i, li);
        }
    }
    assert forall|i: int| 0 <= i < n implies stack_fits(full, targets, i) by {
        if i > 0 {
            selected_sizes_fit(m, targets, i);
        }
        lemma_stacks_most(p, q, m.weights, n, i);
        lemma_stacks_start(p, (i + 1) as nat, n);
        lemma_array_most(p[i], q[i], m.weights, stacks_start(p, i as nat) as int);
        lemma_bottleneck(full, targets, i);
        assert(targets[i] >= 1);
        if i + 1 < n {
            assert(targets[i + 1] >= 1);
        }
    }
}

/// The channels after the activations are a machine number.
pub proof fn lemma_bottleneck<S>(arrays: Seq<ArraySpec<S>>, targets: Seq<usize>, i: int)
    requires
        slim_sound(arrays, targets),
        0 <= i < arrays.len(),
    ensures
        bottleneck_for(arrays[i], targets[i] as nat) <= usize::MAX,
{
    let a = arrays[i];
    assert(bottleneck_sound(a, targets[i] as nat));
    if a.layer1x1_active {
        let x = (a.bottleneck * targets[i]) as nat;
        let c = a.channels as nat;
        lemma_div_is_ordered_by_denominator(x as int, 1, c as int);
    }
}

} // verus!
