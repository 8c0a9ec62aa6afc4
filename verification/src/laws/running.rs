//! A reduced network runs wherever the full one does.

use crate::laws::sizes::{selected_size_fits, sizes_are_within, sizes_can_be_selected};
use crate::laws::slices::{array_slice, dilated_slice, film_slice, layer_slice, projection_slice};
use crate::num::Scalar;
use crate::pure::array_config::array_spec_wf;
use crate::pure::conv1d::{lookback, Dilated};
use crate::pure::dsp::{dsp_total, net_runs, selected, selection_changes, DspModel};
use crate::pure::film::Modulation;
use crate::pure::layer::{layer_total, LayerModel};
use crate::pure::layer_array::{array_fits, array_reads, array_total, ArrayModel};
use crate::pure::layer_setup::{dilated_fits, layer_fits, modulation_fits, projection_fits};
use crate::pure::model::{ready, selectable};
use crate::pure::net::{condition_rows, net_fits, net_total, net_wired, stack_rows, NetModel};
use crate::pure::nn::Affine;
use crate::pure::slim::{
    channels_for, full_channels, sizes_in_order, slim_model_wf, slim_net, slim_specs, SlimModel,
};
use vstd::prelude::*;

verus! {

/// Fewer channels take less room.
proof fn lemma_less(max: nat, a: nat, b: nat)
    requires
        a <= b,
        max * b <= usize::MAX,
    ensures
        max * a <= usize::MAX,
{
    assert(max * a <= max * b) by (nonlinear_arith)
        requires
            a <= b,
    ;
}

/// A slice of a convolution takes less room.
proof fn lemma_dilated_slice_fits<S>(a: Dilated<S>, b: Dilated<S>, max: nat)
    requires
        dilated_slice(a, b),
        dilated_fits(b, max),
    ensures
        dilated_fits(a, max),
{
    assert(lookback(a) == lookback(b));
    lemma_less(max, a.outputs, b.outputs);
    let room = lookback(b) + max;
    assert(room * a.inputs <= usize::MAX) by (nonlinear_arith)
        requires
            a.inputs <= b.inputs,
            room * b.inputs <= usize::MAX,
    ;
}

/// A slice of a modulation takes less room.
proof fn lemma_film_slice_fits<S>(
    a: Option<Modulation<S>>,
    b: Option<Modulation<S>>,
    max: nat,
)
    requires
        film_slice(a, b),
        modulation_fits(b, max),
    ensures
        modulation_fits(a, max),
{
    if let Some(x) = a {
        lemma_less(max, x.conv.outputs, b->0.conv.outputs);
        lemma_less(max, x.dim, b->0.dim);
    }
}

/// A slice of a projection takes less room.
proof fn lemma_projection_slice_fits<S>(a: Option<Affine<S>>, b: Option<Affine<S>>, max: nat)
    requires
        projection_slice(a, b),
        projection_fits(b, max),
    ensures
        projection_fits(a, max),
{
    if let Some(x) = a {
        lemma_less(max, x.outputs, b->0.outputs);
    }
}

/// A slice of a layer takes less room.
proof fn lemma_layer_slice_fits<S>(a: LayerModel<S>, b: LayerModel<S>, max: nat)
    requires
        layer_slice(a, b),
        layer_fits(b, max),
    ensures
        layer_fits(a, max),
{
    lemma_dilated_slice_fits(a.conv, b.conv, max);
    lemma_less(max, a.mixin.outputs, b.mixin.outputs);
    lemma_projection_slice_fits(a.layer1x1, b.layer1x1, max);
    lemma_projection_slice_fits(a.head1x1, b.head1x1, max);
    lemma_film_slice_fits(a.conv_pre, b.conv_pre, max);
    lemma_film_slice_fits(a.conv_post, b.conv_post, max);
    lemma_film_slice_fits(a.mixin_pre, b.mixin_pre, max);
    lemma_film_slice_fits(a.mixin_post, b.mixin_post, max);
    lemma_film_slice_fits(a.act_pre, b.act_pre, max);
    lemma_film_slice_fits(a.act_post, b.act_post, max);
    lemma_film_slice_fits(a.layer1x1_post, b.layer1x1_post, max);
    lemma_film_slice_fits(a.head1x1_post, b.head1x1_post, max);
    lemma_less(max, a.channels, b.channels);
}

/// A slice of a stack takes less room.
proof fn lemma_array_slice_fits<S>(a: ArrayModel<S>, b: ArrayModel<S>, max: nat)
    requires
        array_slice(a, b),
        array_fits(b, max),
    ensures
        array_fits(a, max),
{
    lemma_less(max, a.rechannel.outputs, b.rechannel.outputs);
    assert forall|i: int| 0 <= i < a.layers.len() implies layer_fits(
        #[trigger] a.layers[i],
        max,
    ) by {
        assert(layer_fits(b.layers[i], max));
        lemma_layer_slice_fits(a.layers[i], b.layers[i], max);
    }
    lemma_dilated_slice_fits(a.head, b.head, max);
    lemma_less(max, a.head.inputs, b.head.inputs);
}

/// The size that a ratio selects runs on the blocks that the full size runs on,
/// and has values wherever the full size has values everywhere.
pub proof fn every_size_runs<S: Scalar>(m: SlimModel<S>, val: S::Wide, max: nat)
    requires
        slim_model_wf(m),
        forall|i: int| 0 <= i < m.arrays.len() ==> array_spec_wf(#[trigger] m.arrays[i]),
        sizes_in_order(m),
        net_runs(slim_net(m, full_channels(m.arrays))->Ok_0),
        net_fits(slim_net(m, full_channels(m.arrays))->Ok_0, max),
    ensures
        net_runs(slim_net(m, channels_for(m, val))->Ok_0),
        net_fits(slim_net(m, channels_for(m, val))->Ok_0, max),
        net_total(slim_net(m, full_channels(m.arrays))->Ok_0) ==> net_total(
            slim_net(m, channels_for(m, val))->Ok_0,
        ),
{
    let targets = channels_for(m, val);
    let a = slim_net(m, targets)->Ok_0;
    let b = slim_net(m, full_channels(m.arrays))->Ok_0;
    let n = m.arrays.len();
    if targets != full_channels(m.arrays) {
        assert forall|i: int| 0 <= i < targets.len() implies #[trigger] targets[i]
            <= m.arrays[i].channels by {
            sizes_are_within(m, val, i);
        }
        selected_size_fits(m, val);
        sizes_can_be_selected(m, targets);
        assert(slim_specs(m.arrays, targets).last().head_size == m.arrays.last().head_size);
        assert(a.outputs == b.outputs);
        assert(a.arrays.len() == n);
        assert forall|i: int| 0 <= i < n implies array_fits(#[trigger] a.arrays[i], max) by {
            assert(array_fits(b.arrays[i], max));
            lemma_array_slice_fits(a.arrays[i], b.arrays[i], max);
        }
        assert(condition_rows(a) == condition_rows(b));
        assert forall|i: int| 0 <= i < n implies array_reads(
            a.arrays[i],
            #[trigger] stack_rows(a, i),
            condition_rows(a),
        ) by {
            assert(array_slice(a.arrays[i], b.arrays[i]));
            assert(array_reads(b.arrays[i], stack_rows(b, i), condition_rows(b)));
            if i > 0 {
                assert(a.arrays[i].rechannel.inputs == targets[i - 1]);
                assert(a.arrays[i - 1].rechannel.outputs == targets[i - 1]);
            }
            assert forall|j: int| 0 <= j < a.arrays[i].layers.len() implies (
            #[trigger] a.arrays[i].layers[j]).mixin.inputs <= condition_rows(a) by {
                assert(layer_slice(a.arrays[i].layers[j], b.arrays[i].layers[j]));
            }
        }
        assert forall|i: int| 0 <= i < n - 1 implies (#[trigger] a.arrays[i]).layers.len() > 0 by {
            assert(b.arrays[i].layers.len() > 0);
        }
        assert(net_wired(a));
        if net_total(b) {
            assert forall|i: int| 0 <= i < n implies array_total(#[trigger] a.arrays[i]) by {
                assert(array_total(b.arrays[i]));
                assert forall|j: int| 0 <= j < a.arrays[i].layers.len() implies layer_total(
                    #[trigger] a.arrays[i].layers[j],
                ) by {
                    assert(layer_total(b.arrays[i].layers[j]));
                    assert(layer_slice(a.arrays[i].layers[j], b.arrays[i].layers[j]));
                }
            }
        }
    }
}

/// Where a network that can be reduced runs at full size, every ratio can be
/// selected, whatever size is selected now.
pub proof fn running_models_take_every_ratio<S: Scalar>(
    m: SlimModel<S>,
    channels: Seq<usize>,
    net: NetModel<S>,
    val: S::Wide,
    max: nat,
)
    requires
        slim_model_wf(m),
        forall|i: int| 0 <= i < m.arrays.len() ==> array_spec_wf(#[trigger] m.arrays[i]),
        sizes_in_order(m),
        ready(
            DspModel::Slim(
                m,
                full_channels(m.arrays),
                slim_net(m, full_channels(m.arrays))->Ok_0,
            ),
            max,
        ),
    ensures
        selectable(DspModel::Slim(m, channels, net), val, max),
        net_total(slim_net(m, full_channels(m.arrays))->Ok_0) && selection_changes(
            DspModel::Slim(m, channels, net),
            val,
        ) ==> dsp_total(selected(DspModel::Slim(m, channels, net), val)),
{
    every_size_runs(m, val, max);
}

} // verus!
