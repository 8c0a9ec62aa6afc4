//! What a network is made of: the sizes, activations and options that a
//! configuration gives, without the weights.

use crate::num::Scalar;
use crate::pure::activations::Act;
use crate::pure::conv1d::{dilated_count, dilated_from};
use crate::pure::film::{amounts, modulation_from, Modulation};
use crate::pure::layer::{z_rows, GatingMode, LayerModel};
use crate::pure::layer_array::ArrayModel;
use crate::pure::nn::{affine_count, affine_from};
use crate::pure::post_head::HeadModel;
use vstd::prelude::*;

verus! {

/// The places where a layer can be modulated, in the order of their weights.
pub const FILM_CONV_PRE: usize = 0;

/// The output of the convolution.
pub const FILM_CONV_POST: usize = 1;

/// The condition that is mixed in.
pub const FILM_INPUT_MIXIN_PRE: usize = 2;

/// What the condition contributes.
pub const FILM_INPUT_MIXIN_POST: usize = 3;

/// Before the activation.
pub const FILM_ACTIVATION_PRE: usize = 4;

/// After the activation.
pub const FILM_ACTIVATION_POST: usize = 5;

/// The projection to the residual.
pub const FILM_LAYER1X1_POST: usize = 6;

/// The projection to the skip output.
pub const FILM_HEAD1X1_POST: usize = 7;

/// The parameters of a modulation.
#[derive(Clone, Copy, Debug)]
pub struct FilmParams {
    /// Whether there is a modulation.
    pub active: bool,
    /// Whether it shifts.
    pub shift: bool,
    /// Its number of groups.
    pub groups: usize,
}

// Layers =====================================================================

/// The shape of a layer.
pub struct LayerPlan<S> {
    /// Channels of input and residual.
    pub channels: nat,
    /// Channels of the condition.
    pub condition: nat,
    /// Channels after the activation.
    pub bottleneck: nat,
    /// What the upper half does.
    pub gating: GatingMode,
    /// The activation.
    pub act: Act<S>,
    /// The activation of the upper half.
    pub secondary: Option<Act<S>>,
    /// Taps of the convolution.
    pub kernel: nat,
    /// Distance between its taps.
    pub dilation: nat,
    /// Groups of the convolution.
    pub groups_input: nat,
    /// Groups of the contribution of the condition.
    pub groups_mixin: nat,
    /// Groups of the projection to the residual, where there is one.
    pub layer1x1: Option<nat>,
    /// Channels and groups of the projection to the skip output, where there
    /// is one.
    pub head1x1: Option<(nat, nat)>,
    /// Shift and groups of each modulation, where there is one.
    pub films: Seq<Option<(bool, nat)>>,
}

/// How many channels the modulation at place `slot` modulates.
pub open spec fn film_dim<S>(p: LayerPlan<S>, slot: int) -> nat {
    if slot == FILM_CONV_PRE || slot == FILM_LAYER1X1_POST {
        p.channels
    } else if slot == FILM_INPUT_MIXIN_PRE {
        p.condition
    } else if slot == FILM_ACTIVATION_POST {
        p.bottleneck
    } else if slot == FILM_HEAD1X1_POST {
        match p.head1x1 {
            Some((out, _)) => out,
            None => 0,
        }
    } else {
        z_rows(p.gating, p.bottleneck)
    }
}

/// How many weights part `k` of a layer reads. The parts are the convolution,
/// the contribution of the condition, the two projections and the modulations.
pub open spec fn part_count<S>(p: LayerPlan<S>, k: int) -> nat {
    let zr = z_rows(p.gating, p.bottleneck);
    if k == 0 {
        dilated_count(p.channels, zr, p.kernel, true, p.groups_input)
    } else if k == 1 {
        affine_count(p.condition, zr, false, p.groups_mixin)
    } else if k == 2 {
        match p.layer1x1 {
            Some(groups) => affine_count(p.bottleneck, p.channels, true, groups),
            None => 0,
        }
    } else if k == 3 {
        match p.head1x1 {
            Some((out, groups)) => affine_count(p.bottleneck, out, true, groups),
            None => 0,
        }
    } else {
        match p.films[k - 4] {
            Some((shift, groups)) => affine_count(
                p.condition,
                amounts(film_dim(p, k - 4), shift),
                true,
                groups,
            ),
            None => 0,
        }
    }
}

/// How many weights the first `k` parts of a layer read.
pub open spec fn part_start<S>(p: LayerPlan<S>, k: nat) -> nat
    decreases k,
{
    if k == 0 {
        0
    } else {
        part_start(p, (k - 1) as nat) + part_count(p, k - 1)
    }
}

/// How many weights a layer reads.
pub open spec fn layer_count<S>(p: LayerPlan<S>) -> nat {
    part_start(p, 12)
}

/// The modulation at place `slot` of a layer whose weights start at `pos`.
pub open spec fn planned_film<S: Scalar>(
    p: LayerPlan<S>,
    data: Seq<S>,
    pos: int,
    slot: nat,
) -> Option<Modulation<S>> {
    match p.films[slot as int] {
        Some((shift, groups)) => Some(
            modulation_from(
                data,
                pos + part_start(p, 4 + slot),
                p.condition,
                film_dim(p, slot as int),
                shift,
                groups,
            ),
        ),
        None => None,
    }
}

/// The layer of this shape that the weights from `pos` on describe.
pub open spec fn layer_from<S: Scalar>(p: LayerPlan<S>, data: Seq<S>, pos: int) -> LayerModel<S> {
    let zr = z_rows(p.gating, p.bottleneck);
    LayerModel {
        conv: dilated_from(
            data,
            pos,
            p.channels,
            zr,
            p.kernel,
            true,
            p.dilation,
            p.groups_input,
        ),
        mixin: affine_from(
            data,
            pos + part_start(p, 1),
            p.condition,
            zr,
            false,
            p.groups_mixin,
        ),
        layer1x1: match p.layer1x1 {
            Some(groups) => Some(
                affine_from(
                    data,
                    pos + part_start(p, 2),
                    p.bottleneck,
                    p.channels,
                    true,
                    groups,
                ),
            ),
            None => None,
        },
        head1x1: match p.head1x1 {
            Some((out, groups)) => Some(
                affine_from(data, pos + part_start(p, 3), p.bottleneck, out, true, groups),
            ),
            None => None,
        },
        act: p.act,
        secondary: p.secondary,
        gating: p.gating,
        bottleneck: p.bottleneck,
        channels: p.channels,
        conv_pre: planned_film(p, data, pos, FILM_CONV_PRE as nat),
        conv_post: planned_film(p, data, pos, FILM_CONV_POST as nat),
        mixin_pre: planned_film(p, data, pos, FILM_INPUT_MIXIN_PRE as nat),
        mixin_post: planned_film(p, data, pos, FILM_INPUT_MIXIN_POST as nat),
        act_pre: planned_film(p, data, pos, FILM_ACTIVATION_PRE as nat),
        act_post: planned_film(p, data, pos, FILM_ACTIVATION_POST as nat),
        layer1x1_post: planned_film(p, data, pos, FILM_LAYER1X1_POST as nat),
        head1x1_post: planned_film(p, data, pos, FILM_HEAD1X1_POST as nat),
    }
}

// Stacks of layers ===========================================================

/// The shape of a stack of layers.
pub struct ArrayPlan<S> {
    /// Channels of the input.
    pub input: nat,
    /// Channels of the layers.
    pub channels: nat,
    /// The layers, in order.
    pub layers: Seq<LayerPlan<S>>,
    /// Channels of the summed skip outputs.
    pub head_rows: nat,
    /// Channels of the head's output.
    pub head_size: nat,
    /// Taps of the head.
    pub head_kernel: nat,
    /// Distance between the taps of the head.
    pub head_dilation: nat,
    /// Whether the head adds a bias.
    pub head_bias: bool,
}

/// How many weights the first `k` layers read.
pub open spec fn layers_start<S>(layers: Seq<LayerPlan<S>>, k: nat) -> nat
    decreases k,
{
    if k == 0 {
        0
    } else {
        layers_start(layers, (k - 1) as nat) + layer_count(layers[k - 1])
    }
}

/// How many weights stand before those of layer `k` of a stack.
pub open spec fn array_start<S>(p: ArrayPlan<S>, k: nat) -> nat {
    affine_count(p.input, p.channels, false, 1) + layers_start(p.layers, k)
}

/// How many weights a stack reads.
pub open spec fn array_count<S>(p: ArrayPlan<S>) -> nat {
    array_start(p, p.layers.len()) + dilated_count(
        p.head_rows,
        p.head_size,
        p.head_kernel,
        p.head_bias,
        1,
    )
}

/// The stack of this shape that the weights from `pos` on describe.
pub open spec fn array_from<S: Scalar>(p: ArrayPlan<S>, data: Seq<S>, pos: int) -> ArrayModel<S> {
    ArrayModel {
        rechannel: affine_from(data, pos, p.input, p.channels, false, 1),
        layers: Seq::new(
            p.layers.len(),
            |i: int| layer_from(p.layers[i], data, pos + array_start(p, i as nat)),
        ),
        head: dilated_from(
            data,
            pos + array_start(p, p.layers.len()),
            p.head_rows,
            p.head_size,
            p.head_kernel,
            p.head_bias,
            p.head_dilation,
            1,
        ),
    }
}

// The head after the stacks ==================================================

/// The shape of the head after the stacks.
pub struct HeadPlan<S> {
    /// Channels read.
    pub inputs: nat,
    /// Channels between the convolutions.
    pub channels: nat,
    /// Channels written.
    pub outputs: nat,
    /// Taps of each convolution.
    pub kernels: Seq<nat>,
    /// The activation before each convolution.
    pub act: Act<S>,
}

/// Channels that convolution `i` of a head reads.
pub open spec fn head_inputs<S>(p: HeadPlan<S>, i: int) -> nat {
    if i == 0 {
        p.inputs
    } else {
        p.channels
    }
}

/// Channels that convolution `i` of a head writes.
pub open spec fn head_outputs<S>(p: HeadPlan<S>, i: int) -> nat {
    if i + 1 == p.kernels.len() {
        p.outputs
    } else {
        p.channels
    }
}

/// How many weights the first `k` convolutions of a head read.
pub open spec fn head_start_at<S>(p: HeadPlan<S>, k: nat) -> nat
    decreases k,
{
    if k == 0 {
        0
    } else {
        head_start_at(p, (k - 1) as nat) + dilated_count(
            head_inputs(p, k - 1),
            head_outputs(p, k - 1),
            p.kernels[k - 1],
            true,
            1,
        )
    }
}

/// How many weights a head reads.
pub open spec fn head_count<S>(p: HeadPlan<S>) -> nat {
    head_start_at(p, p.kernels.len())
}

/// The head of this shape that the weights from `pos` on describe.
pub open spec fn head_from<S: Scalar>(p: HeadPlan<S>, data: Seq<S>, pos: int) -> HeadModel<S> {
    HeadModel {
        inputs: p.inputs,
        stages: Seq::new(
            p.kernels.len(),
            |i: int|
                (
                    p.act,
                    dilated_from(
                        data,
                        pos + head_start_at(p, i as nat),
                        head_inputs(p, i),
                        head_outputs(p, i),
                        p.kernels[i],
                        true,
                        1,
                        1,
                    ),
                ),
        ),
    }
}

} // verus!
