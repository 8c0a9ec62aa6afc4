//! Where the weights of each part stand in the list of a model.

use crate::num::Scalar;
use crate::pure::array_config::{array_spec_wf, head_rows, ArraySpec};
use crate::pure::assemble::{layer_plan, slot_plan};
use crate::pure::conv1d::{dilated_from, Dilated};
use crate::pure::film::{amounts, Modulation};
use crate::pure::layer::{z_rows, GatingMode, LayerModel};
use crate::pure::layer_array::ArrayModel;
use crate::pure::lstm::{cells_start, lstm_sized, CellModel, LstmModel, LstmSizes};
use crate::pure::mat::lemma_cell;
use crate::pure::net::NetModel;
use crate::pure::net_build::{array_plans, net_of, stacks_start};
use crate::pure::nn::{affine_from, Affine};
use crate::pure::plan::{
    array_count, array_from, array_start, film_dim, head_from, head_start_at, layer_count,
    layer_from, layers_start, part_count, part_start, ArrayPlan, HeadPlan, LayerPlan,
};
use crate::pure::post_head::HeadModel;
use vstd::arithmetic::div_mod::*;
use vstd::arithmetic::mul::*;
use vstd::prelude::*;

verus! {

// Convolutions ===============================================================

/// The weights of a convolution stand in a list from `pos` on: for each output
/// the inputs of its group, for each of those the taps; then the biases, one for
/// each output. Inputs of other groups have no weight. There are `outs` outputs
/// and `ins` inputs in each group.
pub open spec fn is_listed<S: Scalar>(
    m: Dilated<S>,
    data: Seq<S>,
    pos: int,
    ins: int,
    outs: int,
    groups: int,
    taps: int,
    bias: bool,
) -> bool {
    &&& m.inputs == ins * groups
    &&& m.outputs == outs * groups
    &&& m.weight.len() == taps
    &&& forall|g: int, p: int, q: int, k: int|
        0 <= g < groups && 0 <= p < outs && 0 <= q < ins && 0 <= k < taps
            ==> #[trigger] weight_at(m, k, g * outs + p, g * ins + q) == data[pos + ((g * outs + p)
            * ins + q) * taps + k]
    &&& forall|g: int, d: int, p: int, q: int, k: int|
        0 <= g < groups && 0 <= d < groups && g != d && 0 <= p < outs && 0 <= q < ins && 0 <= k
            < taps ==> #[trigger] weight_at(m, k, g * outs + p, d * ins + q) == S::zero_spec()
    &&& forall|o: int|
        0 <= o < m.outputs ==> #[trigger] m.offset[o] == if bias {
            data[pos + m.outputs * ins * taps + o]
        } else {
            S::zero_spec()
        }
}

/// The weight at tap `k` from input `i` to output `o`.
pub open spec fn weight_at<S>(m: Dilated<S>, k: int, o: int, i: int) -> S {
    m.weight[k][o][i]
}

/// A pointwise convolution as one of a single tap.
pub open spec fn single_tap<S>(m: Affine<S>) -> Dilated<S> {
    Dilated {
        inputs: m.inputs,
        outputs: m.outputs,
        dilation: 1,
        weight: seq![m.weight],
        offset: m.offset,
    }
}

/// Which group a channel belongs to, and which of its channels it is.
proof fn lemma_channel(g: int, per: int, p: int, groups: int)
    requires
        0 <= p < per,
        0 <= g < groups,
    ensures
        (g * per + p) / per == g,
        (g * per + p) % per == p,
        0 <= g * per + p < per * groups,
        (per * groups) / groups == per,
{
    lemma_fundamental_div_mod_converse(g * per + p, per, g, p);
    assert(0 <= g * per + p < per * groups) by (nonlinear_arith)
        requires
            0 <= p < per,
            0 <= g < groups,
    ;
    lemma_div_by_multiple(per, groups);
}

/// Convolutions take their weights from where they stand.
pub proof fn convolutions_are_listed<S: Scalar>(
    data: Seq<S>,
    pos: int,
    ins: nat,
    outs: nat,
    groups: nat,
    taps: nat,
    bias: bool,
    dilation: nat,
)
    requires
        groups > 0,
    ensures
        is_listed(
            dilated_from(data, pos, ins * groups, outs * groups, taps, bias, dilation, groups),
            data,
            pos,
            ins as int,
            outs as int,
            groups as int,
            taps as int,
            bias,
        ),
        dilated_from(
            data,
            pos,
            ins * groups,
            outs * groups,
            taps,
            bias,
            dilation,
            groups,
        ).dilation == dilation,
{
    let inputs = ins * groups;
    let outputs = outs * groups;
    let m = dilated_from(data, pos, inputs, outputs, taps, bias, dilation, groups);
    lemma_div_by_multiple(ins as int, groups as int);
    lemma_div_by_multiple(outs as int, groups as int);
    assert forall|g: int, p: int, q: int, k: int|
        0 <= g < groups && 0 <= p < outs && 0 <= q < ins && 0 <= k < taps implies #[trigger] weight_at(
        m,
        k,
        g * outs + p,
        g * ins + q,
    ) == data[pos + ((g * outs + p) * ins + q) * taps + k] by {
        lemma_channel(g, outs as int, p, groups as int);
        lemma_channel(g, ins as int, q, groups as int);
    }
    assert forall|g: int, d: int, p: int, q: int, k: int|
        0 <= g < groups && 0 <= d < groups && g != d && 0 <= p < outs && 0 <= q < ins && 0 <= k
            < taps implies #[trigger] weight_at(m, k, g * outs + p, d * ins + q)
        == S::zero_spec() by {
        lemma_channel(g, outs as int, p, groups as int);
        lemma_channel(d, ins as int, q, groups as int);
    }
}

/// Pointwise convolutions take their weights from where they stand.
pub proof fn projections_are_listed<S: Scalar>(
    data: Seq<S>,
    pos: int,
    ins: nat,
    outs: nat,
    groups: nat,
    bias: bool,
)
    requires
        groups > 0,
    ensures
        is_listed(
            single_tap(affine_from(data, pos, ins * groups, outs * groups, bias, groups)),
            data,
            pos,
            ins as int,
            outs as int,
            groups as int,
            1,
            bias,
        ),
{
    convolutions_are_listed(data, pos, ins, outs, groups, 1, bias, 1);
    let a = single_tap(affine_from(data, pos, ins * groups, outs * groups, bias, groups));
    let b = dilated_from(data, pos, ins * groups, outs * groups, 1, bias, 1, groups);
    lemma_div_by_multiple(ins as int, groups as int);
    assert(a.weight[0] =~= b.weight[0]);
    assert(a.weight =~= b.weight);
    let n = (outs * groups) as int;
    assert(n * ins * 1 == n * ins);
    assert(a.offset =~= b.offset);
}

// Layers =====================================================================

/// How many weights stand for a convolution with these channels and groups.
pub open spec fn listed_count(inputs: nat, outputs: nat, taps: nat, bias: bool, groups: nat) -> int {
    outputs * (inputs / groups) * taps + if bias {
        outputs as int
    } else {
        0
    }
}

/// Rows before the activation: twice as many where there is an upper half.
pub open spec fn rows_before<S>(p: LayerPlan<S>) -> nat {
    if p.gating == GatingMode::Ungated {
        p.bottleneck
    } else {
        p.bottleneck + p.bottleneck
    }
}

/// How many channels are modulated at each place.
pub open spec fn modulated_rows<S>(p: LayerPlan<S>, slot: int, n: nat) -> bool {
    ||| slot == 0 && n == p.channels
    ||| slot == 1 && n == rows_before(p)
    ||| slot == 2 && n == p.condition
    ||| slot == 3 && n == rows_before(p)
    ||| slot == 4 && n == rows_before(p)
    ||| slot == 5 && n == p.bottleneck
    ||| slot == 6 && n == p.channels
    ||| slot == 7 && (p.head1x1 matches Some((out, _)) ==> n == out)
}

/// The modulation at a place of a layer.
pub open spec fn film_at<S>(m: LayerModel<S>, slot: int) -> Option<Modulation<S>> {
    if slot == 0 {
        m.conv_pre
    } else if slot == 1 {
        m.conv_post
    } else if slot == 2 {
        m.mixin_pre
    } else if slot == 3 {
        m.mixin_post
    } else if slot == 4 {
        m.act_pre
    } else if slot == 5 {
        m.act_post
    } else if slot == 6 {
        m.layer1x1_post
    } else {
        m.head1x1_post
    }
}

/// How many weights each part of a layer has: the convolution, what the condition
/// contributes, the projections to the residual and to the skip output, and the
/// modulations, whose amounts are as many as the channels that they modulate, or
/// twice as many where they shift.
pub open spec fn part_weights<S>(p: LayerPlan<S>, k: int) -> int {
    if k == 0 {
        listed_count(p.channels, rows_before(p), p.kernel, true, p.groups_input)
    } else if k == 1 {
        listed_count(p.condition, rows_before(p), 1, false, p.groups_mixin)
    } else if k == 2 {
        match p.layer1x1 {
            Some(groups) => listed_count(p.bottleneck, p.channels, 1, true, groups),
            None => 0,
        }
    } else if k == 3 {
        match p.head1x1 {
            Some((out, groups)) => listed_count(p.bottleneck, out, 1, true, groups),
            None => 0,
        }
    } else {
        match p.films[k - 4] {
            Some((shift, groups)) => listed_count(
                p.condition,
                film_amounts(p, k - 4, shift),
                1,
                true,
                groups,
            ),
            None => 0,
        }
    }
}

/// The amounts of a modulation.
pub open spec fn film_amounts<S>(p: LayerPlan<S>, slot: int, shift: bool) -> nat {
    let n = choose|n: nat| modulated_rows(p, slot, n);
    if shift {
        n + n
    } else {
        n
    }
}

/// The parts of a layer stand one after the other from `marks[0]` on.
pub open spec fn in_order<S>(p: LayerPlan<S>, marks: Seq<int>) -> bool {
    &&& marks.len() == 13
    &&& forall|k: int|
        0 <= k < 12 ==> #[trigger] marks[k] + part_weights(p, k) == marks[k + 1]
}

/// A layer takes each part from where it stands.
pub open spec fn layer_is_listed<S: Scalar>(
    p: LayerPlan<S>,
    data: Seq<S>,
    marks: Seq<int>,
    m: LayerModel<S>,
) -> bool {
    &&& m.conv == dilated_from(
        data,
        marks[0],
        p.channels,
        rows_before(p),
        p.kernel,
        true,
        p.dilation,
        p.groups_input,
    )
    &&& m.mixin == affine_from(
        data,
        marks[1],
        p.condition,
        rows_before(p),
        false,
        p.groups_mixin,
    )
    &&& m.layer1x1 == match p.layer1x1 {
        Some(groups) => Some(
            affine_from(data, marks[2], p.bottleneck, p.channels, true, groups),
        ),
        None => None,
    }
    &&& m.head1x1 == match p.head1x1 {
        Some((out, groups)) => Some(
            affine_from(data, marks[3], p.bottleneck, out, true, groups),
        ),
        None => None,
    }
    &&& forall|slot: int|
        0 <= slot < 8 ==> match #[trigger] p.films[slot] {
            Some((shift, groups)) => film_at(m, slot) matches Some(film) && film.shift == shift
                && modulated_rows(p, slot, film.dim) && film.conv == affine_from(
                data,
                marks[4 + slot],
                p.condition,
                film_amounts(p, slot, shift),
                true,
                groups,
            ),
            None => film_at(m, slot) is None,
        }
    &&& m.act == p.act
    &&& m.secondary == p.secondary
    &&& m.gating == p.gating
    &&& m.bottleneck == p.bottleneck
    &&& m.channels == p.channels
}

/// A layer without a projection to the skip output does not modulate it.
pub open spec fn skip_film_has_its_projection<S>(p: LayerPlan<S>) -> bool {
    p.films[7] is Some ==> p.head1x1 is Some
}

/// How many channels are modulated at a place is settled.
proof fn lemma_modulated_rows<S>(p: LayerPlan<S>, slot: int, shift: bool)
    requires
        0 <= slot < 8,
        slot == 7 ==> p.head1x1 is Some,
    ensures
        modulated_rows(p, slot, film_dim(p, slot)),
        film_amounts(p, slot, shift) == amounts(film_dim(p, slot), shift),
{
    assert(z_rows(p.gating, p.bottleneck) == rows_before(p));
    assert(modulated_rows(p, slot, film_dim(p, slot)));
    let n = choose|n: nat| modulated_rows(p, slot, n);
    assert(modulated_rows(p, slot, n));
    assert(n == film_dim(p, slot));
}

/// A part has the weights that stand for it.
proof fn lemma_part_weights<S>(p: LayerPlan<S>, k: int)
    requires
        0 <= k < 12,
        p.films.len() == 8,
        skip_film_has_its_projection(p),
    ensures
        part_weights(p, k) == part_count(p, k),
{
    assert(z_rows(p.gating, p.bottleneck) == rows_before(p));
    if k >= 4 {
        if let Some((shift, groups)) = p.films[k - 4] {
            lemma_modulated_rows(p, k - 4, shift);
        }
    }
    assert forall|a: int| #[trigger] (a * 1) == a by {}
}

/// The weights of a layer stand one part after the other: the convolution, what
/// the condition contributes, the projections, and the modulations in the order of
/// their places.
pub proof fn layers_are_listed_in_order<S: Scalar>(p: LayerPlan<S>, data: Seq<S>, pos: int)
    requires
        p.films.len() == 8,
        skip_film_has_its_projection(p),
    ensures
        exists|marks: Seq<int>| #[trigger]
            in_order(p, marks) && marks[0] == pos && marks[12] == pos + part_start(p, 12)
                && layer_is_listed(p, data, marks, layer_from(p, data, pos)),
{
    let marks = Seq::new(13, |k: int| pos + part_start(p, k as nat));
    assert forall|k: int| 0 <= k < 12 implies #[trigger] marks[k] + part_weights(p, k)
        == marks[k + 1] by {
        lemma_part_weights(p, k);
    }
    let m = layer_from(p, data, pos);
    assert(z_rows(p.gating, p.bottleneck) == rows_before(p));
    assert forall|slot: int| 0 <= slot < 8 implies match #[trigger] p.films[slot] {
        Some((shift, groups)) => film_at(m, slot) matches Some(film) && film.shift == shift
            && modulated_rows(p, slot, film.dim) && film.conv == affine_from(
            data,
            marks[4 + slot],
            p.condition,
            film_amounts(p, slot, shift),
            true,
            groups,
        ),
        None => film_at(m, slot) is None,
    } by {
        if let Some((shift, groups)) = p.films[slot] {
            lemma_modulated_rows(p, slot, shift);
        }
    }
    assert(in_order(p, marks));
    assert(layer_is_listed(p, data, marks, m));
}

// Stacks and networks ========================================================

/// How many weights a layer has.
pub open spec fn layer_weights<S>(p: LayerPlan<S>) -> int {
    part_start(p, 12) as int
}

/// The weights of a stack stand one part after the other: what brings the input
/// to the channels of the layers, the layers, and the head.
pub proof fn stacks_are_listed_in_order<S: Scalar>(p: ArrayPlan<S>, data: Seq<S>, pos: int)
    ensures
        exists|marks: Seq<int>| #[trigger]
            stack_is_listed(p, data, pos, marks, array_from(p, data, pos)),
{
    let n = p.layers.len();
    let marks = Seq::new(n + 1, |i: int| pos + array_start(p, i as nat));
    assert forall|a: int| #[trigger] (a * 1) == a by {}
    assert forall|i: int| 0 <= i < n implies #[trigger] marks[i] + layer_weights(p.layers[i])
        == marks[i + 1] by {
        assert(layers_start(p.layers, (i + 1) as nat) == layers_start(p.layers, i as nat)
            + layer_count(p.layers[i]));
    }
    assert(p.input / 1 == p.input);
    assert(stack_is_listed(p, data, pos, marks, array_from(p, data, pos)));
}

/// A stack takes each part from where it stands; layer `i` from `marks[i]` on.
pub open spec fn stack_is_listed<S: Scalar>(
    p: ArrayPlan<S>,
    data: Seq<S>,
    pos: int,
    marks: Seq<int>,
    m: ArrayModel<S>,
) -> bool {
    let n = p.layers.len() as int;
    &&& marks.len() == n + 1
    &&& marks[0] == pos + p.channels * p.input
    &&& forall|i: int|
        0 <= i < n ==> #[trigger] marks[i] + layer_weights(p.layers[i]) == marks[i + 1]
    &&& m.rechannel == affine_from(data, pos, p.input, p.channels, false, 1)
    &&& m.layers.len() == n
    &&& forall|i: int|
        0 <= i < n ==> #[trigger] m.layers[i] == layer_from(p.layers[i], data, marks[i])
    &&& m.head == dilated_from(
        data,
        marks[n],
        p.head_rows,
        p.head_size,
        p.head_kernel,
        p.head_bias,
        p.head_dilation,
        1,
    )
    &&& pos + array_count(p) == marks[n] + listed_count(
        p.head_rows,
        p.head_size,
        p.head_kernel,
        p.head_bias,
        1,
    )
}

/// A network that can be made has its stacks one after the other, then the head
/// after them, and its scale at the end; it has read every weight.
pub proof fn networks_are_listed_in_order<S: Scalar>(
    inputs: nat,
    arrays: Seq<ArraySpec<S>>,
    head: Option<HeadPlan<S>>,
    condition: Option<NetModel<S>>,
    data: Seq<S>,
)
    requires
        net_of(inputs, arrays, head, condition, data) is Ok,
    ensures
        exists|marks: Seq<int>| #[trigger]
            net_is_listed(
                arrays,
                head,
                data,
                marks,
                net_of(inputs, arrays, head, condition, data)->Ok_0,
            ),
        ({
            let m = net_of(inputs, arrays, head, condition, data)->Ok_0;
            &&& m.inputs == inputs
            &&& m.outputs == match head {
                Some(h) => h.outputs,
                None => arrays.last().head_size as nat,
            }
            &&& condition is None ==> m.condition is None
            &&& condition matches Some(cd) ==> m.condition == Some(Box::new(cd))
        }),
{
    let plans = array_plans(arrays);
    let n = arrays.len();
    let marks = Seq::new(n + 1, |i: int| stacks_start(plans, i as nat) as int);
    let m = net_of(inputs, arrays, head, condition, data)->Ok_0;
    assert forall|i: int| 0 <= i < n implies #[trigger] marks[i]
        + array_count(plans[i]) == marks[i + 1] by {}
    assert(net_is_listed(arrays, head, data, marks, m));
}

/// A network takes each part from where it stands; stack `i` from `marks[i]` on.
pub open spec fn net_is_listed<S: Scalar>(
    arrays: Seq<ArraySpec<S>>,
    head: Option<HeadPlan<S>>,
    data: Seq<S>,
    marks: Seq<int>,
    m: NetModel<S>,
) -> bool {
    let n = arrays.len() as int;
    let plans = array_plans(arrays);
    &&& marks.len() == n + 1
    &&& marks[0] == 0
    &&& forall|i: int|
        0 <= i < n ==> #[trigger] marks[i] + array_count(plans[i]) == marks[i
            + 1]
    &&& m.arrays.len() == n
    &&& forall|i: int|
        0 <= i < n ==> #[trigger] m.arrays[i] == array_from(plans[i], data, marks[i])
    &&& m.scale == data[data.len() - 1]
    &&& head is None ==> m.head is None && data.len() == marks[n] + 1
    &&& head matches Some(h) ==> m.head == Some(
        head_from(h, data, marks[n]),
    ) && data.len() == marks[n] + head_start_at(h, h.kernels.len()) + 1
}

/// Each layer of a network is what its configuration says: its activation, what
/// the upper half does and with which activation, its taps, their distance, its
/// channels, and whether there are projections and modulations.
pub proof fn layers_are_as_configured<S: Scalar>(
    inputs: nat,
    arrays: Seq<ArraySpec<S>>,
    head: Option<HeadPlan<S>>,
    condition: Option<NetModel<S>>,
    data: Seq<S>,
    i: int,
    l: int,
)
    requires
        net_of(inputs, arrays, head, condition, data) is Ok,
        0 <= i < arrays.len(),
        0 <= l < arrays[i].dilations.len(),
        array_spec_wf(arrays[i]),
    ensures
        ({
            let m = net_of(inputs, arrays, head, condition, data)->Ok_0;
            let a = arrays[i];
            let layer = m.arrays[i].layers[l];
            &&& m.arrays.len() == arrays.len()
            &&& m.arrays[i].layers.len() == a.dilations.len()
            &&& layer.act == a.activations[l]
            &&& layer.gating == a.gating_modes[l]
            &&& layer.secondary == a.secondary_activations[l]
            &&& layer.conv.weight.len() == a.kernel_sizes[l]
            &&& layer.conv.dilation == a.dilations[l]
            &&& layer.conv.inputs == a.channels
            &&& layer.channels == a.channels
            &&& layer.bottleneck == a.bottleneck
            &&& layer.conv.outputs == if a.gating_modes[l] == GatingMode::Ungated {
                a.bottleneck as int
            } else {
                2 * a.bottleneck
            }
            &&& layer.mixin.inputs == a.condition_size
            &&& layer.mixin.outputs == layer.conv.outputs
            &&& layer.layer1x1 is Some == a.layer1x1_active
            &&& layer.layer1x1 matches Some(p) ==> p.inputs == a.bottleneck && p.outputs
                == a.channels
            &&& layer.head1x1 is Some == a.head1x1_active
            &&& layer.head1x1 matches Some(p) ==> p.inputs == a.bottleneck && p.outputs
                == a.head1x1_out
            &&& forall|slot: int|
                0 <= slot < 8 ==> (#[trigger] film_at(layer, slot) is Some
                    == a.films[slot].active) && (film_at(layer, slot) matches Some(film)
                    ==> film.shift == a.films[slot].shift)
        }),
{
    let a = arrays[i];
    let p = layer_plan(a, l);
    assert(array_plans(arrays)[i].layers[l] == p);
    let layer = net_of(inputs, arrays, head, condition, data)->Ok_0.arrays[i].layers[l];
    assert forall|slot: int| 0 <= slot < 8 implies (#[trigger] film_at(layer, slot) is Some
        == a.films[slot].active) && (film_at(layer, slot) matches Some(film) ==> film.shift
        == a.films[slot].shift) by {
        assert(p.films[slot] == slot_plan(a, slot));
    }
}

/// Each stack of a network is what its configuration says: the channels that it
/// reads and that its layers have, and the channels, the taps and the distance of
/// its head, which reads what the layers show.
pub proof fn stacks_are_as_configured<S: Scalar>(
    inputs: nat,
    arrays: Seq<ArraySpec<S>>,
    head: Option<HeadPlan<S>>,
    condition: Option<NetModel<S>>,
    data: Seq<S>,
    i: int,
)
    requires
        net_of(inputs, arrays, head, condition, data) is Ok,
        0 <= i < arrays.len(),
    ensures
        ({
            let m = net_of(inputs, arrays, head, condition, data)->Ok_0.arrays[i];
            let a = arrays[i];
            &&& m.rechannel.inputs == a.input_size
            &&& m.rechannel.outputs == a.channels
            &&& m.head.outputs == a.head_size
            &&& m.head.weight.len() == a.head_kernel_size
            &&& m.head.dilation == a.head_dilation
            &&& a.head1x1_active ==> m.head.inputs == a.head1x1_out
            &&& !a.head1x1_active ==> m.head.inputs == a.bottleneck
            &&& !a.head_bias ==> forall|o: int|
                0 <= o < a.head_size ==> #[trigger] m.head.offset[o] == S::zero_spec()
        }),
{
    assert(head_rows(arrays[i]) == if arrays[i].head1x1_active {
        arrays[i].head1x1_out
    } else {
        arrays[i].bottleneck
    });
}

/// The head after the stacks has a stage for each of its taps, each with the
/// activation of the head and a convolution of neighbouring frames: the first
/// reads what the stacks give, the last gives the output, and the channels of the
/// head lie between.
pub proof fn heads_are_listed_in_order<S: Scalar>(h: HeadPlan<S>, data: Seq<S>, pos: int)
    ensures
        exists|marks: Seq<int>| #[trigger]
            head_is_listed(h, data, pos, marks, head_from(h, data, pos)),
{
    let n = h.kernels.len();
    let marks = Seq::new(n + 1, |i: int| pos + head_start_at(h, i as nat));
    assert forall|i: int| 0 <= i < n implies #[trigger] marks[i] + listed_count(
        stage_inputs(h, i),
        stage_outputs(h, i),
        h.kernels[i],
        true,
        1,
    ) == marks[i + 1] by {}
    assert(head_is_listed(h, data, pos, marks, head_from(h, data, pos)));
}

/// Channels that a stage of the head reads.
pub open spec fn stage_inputs<S>(h: HeadPlan<S>, i: int) -> nat {
    if i > 0 {
        h.channels
    } else {
        h.inputs
    }
}

/// Channels that a stage of the head writes.
pub open spec fn stage_outputs<S>(h: HeadPlan<S>, i: int) -> nat {
    if i < h.kernels.len() - 1 {
        h.channels
    } else {
        h.outputs
    }
}

/// The head takes each stage from where it stands.
pub open spec fn head_is_listed<S: Scalar>(
    h: HeadPlan<S>,
    data: Seq<S>,
    pos: int,
    marks: Seq<int>,
    m: HeadModel<S>,
) -> bool {
    let n = h.kernels.len() as int;
    &&& marks.len() == n + 1
    &&& marks[0] == pos
    &&& forall|i: int|
        0 <= i < n ==> #[trigger] marks[i] + listed_count(
            stage_inputs(h, i),
            stage_outputs(h, i),
            h.kernels[i],
            true,
            1,
        ) == marks[i + 1]
    &&& marks[n] == pos + head_start_at(h, h.kernels.len())
    &&& m.inputs == h.inputs
    &&& m.stages.len() == n
    &&& forall|i: int|
        0 <= i < n ==> (#[trigger] m.stages[i]).0 == h.act && m.stages[i].1 == dilated_from(
            data,
            marks[i],
            stage_inputs(h, i),
            stage_outputs(h, i),
            h.kernels[i],
            true,
            1,
            1,
        )
}

// Recurrent networks =========================================================

/// The weights of a cell stand from `pos` on: four rows for each hidden number,
/// gate by gate, each with the inputs and then the hidden numbers; then the
/// biases of the rows, the hidden numbers and the memories at the start.
pub open spec fn cell_is_listed<S>(
    m: CellModel<S>,
    data: Seq<S>,
    pos: int,
    inputs: int,
    hidden: int,
) -> bool {
    let rows = 4 * hidden;
    let cols = inputs + hidden;
    &&& m.inputs == inputs
    &&& m.hidden == hidden
    &&& forall|r: int, c: int|
        0 <= r < rows && 0 <= c < cols ==> #[trigger] m.weight[r][c] == data[pos + r * cols + c]
    &&& forall|r: int| 0 <= r < rows ==> #[trigger] m.bias[r] == data[pos + rows * cols + r]
    &&& forall|i: int|
        0 <= i < hidden ==> #[trigger] m.h0[i] == data[pos + rows * cols + rows + i]
    &&& forall|i: int|
        0 <= i < hidden ==> #[trigger] m.c0[i] == data[pos + rows * cols + rows + hidden + i]
}

/// Numbers that a cell hears: the first those of the input, each other the hidden
/// numbers of the one before.
pub open spec fn heard_by(z: LstmSizes, i: int) -> int {
    if i > 0 {
        z.hidden as int
    } else {
        z.input as int
    }
}

/// A recurrent network that can be made has its cells one after the other, then
/// the weights and the biases of its output; it has read every weight.
pub proof fn cells_are_listed_in_order<S: Scalar>(z: LstmSizes, data: Seq<S>, rate: S::Wide)
    requires
        lstm_sized(z, data, rate) is Ok,
    ensures
        exists|marks: Seq<int>| #[trigger]
            lstm_is_listed(z, data, marks, lstm_sized(z, data, rate)->Ok_0),
        lstm_sized(z, data, rate)->Ok_0.rate == rate,
        lstm_sized(z, data, rate)->Ok_0.inputs == z.inputs,
        lstm_sized(z, data, rate)->Ok_0.outputs == z.outputs,
{
    let n = z.layers as nat;
    let marks = Seq::new(n + 1, |i: int| cells_start(z, i as nat) as int);
    let m = lstm_sized(z, data, rate)->Ok_0;
    let h = z.hidden as int;
    lemma_mul_nonnegative(z.outputs as int, h);
    assert forall|i: int| 0 <= i < n implies cell_is_listed(
        #[trigger] m.cells[i],
        data,
        marks[i],
        heard_by(z, i),
        h,
    ) && marks[i] + (4 * h) * (heard_by(z, i) + h) + 6 * h == marks[i + 1] by {
        let k = heard_by(z, i);
        let pos = marks[i];
        let rows = 4 * h;
        let cols = k + h;
        lemma_cells_order(z, (i + 1) as nat, n);
        lemma_mul_nonnegative(rows, cols);
        assert forall|r: int, c: int|
            0 <= r < rows && 0 <= c < cols implies #[trigger] m.cells[i].weight[r][c] == data[pos
            + r * cols + c] by {
            lemma_cell(cols, rows, r, c);
        }
    }
    assert(lstm_is_listed(z, data, marks, m));
}

/// Cells stand in order.
proof fn lemma_cells_order(z: LstmSizes, j: nat, k: nat)
    requires
        j <= k,
    ensures
        cells_start(z, j) <= cells_start(z, k),
    decreases k - j,
{
    if j < k {
        lemma_cells_order(z, j, (k - 1) as nat);
    }
}

/// A recurrent network takes each part from where it stands.
pub open spec fn lstm_is_listed<S: Scalar>(
    z: LstmSizes,
    data: Seq<S>,
    marks: Seq<int>,
    m: LstmModel<S>,
) -> bool {
    let n = z.layers as int;
    let h = z.hidden as int;
    &&& marks.len() == n + 1
    &&& marks[0] == 0
    &&& m.hidden == h
    &&& m.cells.len() == n
    &&& forall|i: int|
        0 <= i < n ==> cell_is_listed(
            #[trigger] m.cells[i],
            data,
            marks[i],
            heard_by(z, i),
            h,
        ) && marks[i] + (4 * h) * (heard_by(z, i) + h) + 6 * h == marks[i + 1]
    &&& forall|i: int|
        0 <= i < z.outputs * h ==> #[trigger] m.head_weight[i] == data[marks[n] + i]
    &&& forall|o: int|
        0 <= o < z.outputs ==> #[trigger] m.head_bias[o] == data[marks[n] + z.outputs * h + o]
    &&& data.len() == marks[n] + z.outputs * h + z.outputs
}

} // verus!
