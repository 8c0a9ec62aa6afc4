//! Which models can be made: exactly those whose parts fit.

use crate::num::Scalar;
use crate::pure::array_config::{head_rows, ArraySpec};
use crate::pure::assemble::{
    array_error, array_plan, layer_error, layers_error, part_error, parts_error,
};
use crate::pure::conv1d::dilated_error;
use crate::pure::film::amounts;
use crate::pure::layer::z_rows;
use crate::pure::lstm::{cell_inputs, cells_error, cells_start, lstm_count, lstm_sized, LstmSizes};
use crate::pure::net::{net_reach, NetModel};
use crate::pure::net_build::{
    condition_error, head_error, net_count, net_from, net_of, stacks_error,
};
use crate::pure::nn::affine_error;
use crate::pure::plan::{film_dim, head_inputs, head_outputs, ArrayPlan, HeadPlan, LayerPlan};
use vstd::prelude::*;

verus! {

// Convolutions ===============================================================

/// A convolution with these channels, taps, distance and groups: there are groups,
/// they divide both channels evenly, there is a tap and a distance, and its table
/// can be addressed.
pub open spec fn can_convolve(
    inputs: nat,
    outputs: nat,
    taps: nat,
    dilation: nat,
    groups: nat,
) -> bool {
    &&& groups >= 1
    &&& inputs % groups == 0
    &&& outputs % groups == 0
    &&& taps >= 1
    &&& dilation >= 1
    &&& inputs * outputs <= usize::MAX
}

/// Convolutions are made exactly where they can be.
pub proof fn convolutions_that_can_be_made(
    inputs: nat,
    outputs: nat,
    taps: nat,
    dilation: nat,
    groups: nat,
)
    ensures
        dilated_error(inputs, outputs, taps, dilation, groups) is None <==> can_convolve(
            inputs,
            outputs,
            taps,
            dilation,
            groups,
        ),
        affine_error(inputs, outputs, groups) is None <==> can_convolve(
            inputs,
            outputs,
            1,
            1,
            groups,
        ),
{
}

// Layers and stacks ==========================================================

/// Every part of a layer can be made.
pub open spec fn layer_can_be_made<S>(p: LayerPlan<S>) -> bool {
    let rows = z_rows(p.gating, p.bottleneck);
    &&& rows <= usize::MAX
    &&& can_convolve(p.channels, rows, p.kernel, p.dilation, p.groups_input)
    &&& can_convolve(p.condition, rows, 1, 1, p.groups_mixin)
    &&& p.layer1x1 matches Some(groups) ==> can_convolve(p.bottleneck, p.channels, 1, 1, groups)
    &&& p.head1x1 matches Some((out, groups)) ==> can_convolve(p.bottleneck, out, 1, 1, groups)
    &&& forall|slot: int| 0 <= slot < 8 ==> film_can_be_made(p, slot, #[trigger] p.films[slot])
}

/// The modulation at a place can be made.
pub open spec fn film_can_be_made<S>(
    p: LayerPlan<S>,
    slot: int,
    film: Option<(bool, nat)>,
) -> bool {
    film matches Some((shift, groups)) ==> amounts(film_dim(p, slot), shift) <= usize::MAX
        && can_convolve(p.condition, amounts(film_dim(p, slot), shift), 1, 1, groups)
}

/// Parts are made where each can be.
proof fn lemma_parts<S>(p: LayerPlan<S>, k: nat)
    ensures
        parts_error(p, k) is None <==> forall|j: int| 0 <= j < k ==> (#[trigger] part_error(
            p,
            j,
        )) is None,
    decreases k,
{
    if k > 0 {
        lemma_parts(p, (k - 1) as nat);
        if parts_error(p, k) is None {
            assert forall|j: int| 0 <= j < k implies (#[trigger] part_error(p, j)) is None by {
                if j < k - 1 {
                    assert(part_error(p, j) is None);
                }
            }
        } else if forall|j: int| 0 <= j < k ==> (#[trigger] part_error(p, j)) is None {
            assert(part_error(p, k - 1) is None);
        }
    }
}

/// Layers are made exactly where all their parts can be.
pub proof fn layers_that_can_be_made<S>(p: LayerPlan<S>)
    ensures
        layer_error(p) is None <==> layer_can_be_made(p),
{
    lemma_parts(p, 12);
    let rows = z_rows(p.gating, p.bottleneck);
    convolutions_that_can_be_made(p.channels, rows, p.kernel, p.dilation, p.groups_input);
    convolutions_that_can_be_made(p.condition, rows, 1, 1, p.groups_mixin);
    if layer_error(p) is None {
        assert(part_error(p, 0) is None);
        assert(part_error(p, 1) is None);
        assert(part_error(p, 2) is None);
        assert(part_error(p, 3) is None);
        assert forall|slot: int| 0 <= slot < 8 implies film_can_be_made(
            p,
            slot,
            #[trigger] p.films[slot],
        ) by {
            assert(part_error(p, slot + 4) is None);
        }
    }
    if layer_can_be_made(p) {
        assert forall|j: int| 0 <= j < 12 implies (#[trigger] part_error(p, j)) is None by {
            if j >= 4 {
                assert(film_can_be_made(p, j - 4, p.films[j - 4]));
            }
        }
    }
}

/// Layers are made where each can be.
proof fn lemma_layers<S>(layers: Seq<LayerPlan<S>>, k: nat)
    requires
        k <= layers.len(),
    ensures
        layers_error(layers, k) is None <==> forall|j: int|
            0 <= j < k ==> layer_can_be_made(#[trigger] layers[j]),
    decreases k,
{
    if k > 0 {
        lemma_layers(layers, (k - 1) as nat);
        layers_that_can_be_made(layers[k - 1]);
    }
}

/// All layers of a stack, what brings the input to their channels, and its head
/// can be made.
pub open spec fn stack_can_be_made<S>(p: ArrayPlan<S>) -> bool {
    &&& forall|i: int| 0 <= i < p.layers.len() ==> layer_can_be_made(#[trigger] p.layers[i])
    &&& can_convolve(p.input, p.channels, 1, 1, 1)
    &&& can_convolve(p.head_rows, p.head_size, p.head_kernel, p.head_dilation, 1)
}

/// Stacks are made exactly where all their parts can be.
pub proof fn stacks_that_can_be_made<S>(p: ArrayPlan<S>)
    ensures
        array_error(p) is None <==> stack_can_be_made(p),
{
    lemma_layers(p.layers, p.layers.len());
    convolutions_that_can_be_made(p.input, p.channels, 1, 1, 1);
    convolutions_that_can_be_made(
        p.head_rows,
        p.head_size,
        p.head_kernel,
        p.head_dilation,
        1,
    );
}

/// Stacks are made where each can be and adds to as many channels as the one
/// before gives.
proof fn lemma_stacks<S>(arrays: Seq<ArraySpec<S>>, k: nat)
    requires
        k <= arrays.len(),
    ensures
        stacks_error(arrays, k) is None <==> {
            &&& forall|i: int|
                0 <= i < k ==> stack_can_be_made(array_plan(#[trigger] arrays[i]))
            &&& forall|i: int|
                0 < i < k ==> arrays[i - 1].head_size == #[trigger] head_rows(arrays[i])
        },
    decreases k,
{
    if k > 0 {
        lemma_stacks(arrays, (k - 1) as nat);
        stacks_that_can_be_made(array_plan(arrays[k - 1]));
        if stacks_error(arrays, k) is None {
            assert forall|i: int| 0 < i < k implies arrays[i - 1].head_size == #[trigger] head_rows(
                arrays[i],
            ) by {}
        } else if (forall|i: int|
            0 <= i < k ==> stack_can_be_made(array_plan(#[trigger] arrays[i]))) && (forall|i: int|
            0 < i < k ==> arrays[i - 1].head_size == #[trigger] head_rows(arrays[i])) {
            assert(stack_can_be_made(array_plan(arrays[k - 1])));
            if k > 1 {
                assert(arrays[k - 2].head_size == head_rows(arrays[k - 1]));
            }
        }
    }
}

// Networks ===================================================================

/// Every convolution of the head can be made.
pub open spec fn head_can_be_made<S>(h: HeadPlan<S>) -> bool {
    forall|i: int|
        0 <= i < h.kernels.len() ==> can_convolve(
            head_inputs(h, i),
            head_outputs(h, i),
            #[trigger] h.kernels[i],
            1,
            1,
        )
}

/// Heads are made where each stage can be.
proof fn lemma_head<S>(h: HeadPlan<S>, k: nat)
    requires
        k <= h.kernels.len(),
    ensures
        head_error(h, k) is None <==> forall|i: int|
            0 <= i < k ==> can_convolve(
                head_inputs(h, i),
                head_outputs(h, i),
                #[trigger] h.kernels[i],
                1,
                1,
            ),
    decreases k,
{
    if k > 0 {
        lemma_head(h, (k - 1) as nat);
        convolutions_that_can_be_made(
            head_inputs(h, k - 1),
            head_outputs(h, k - 1),
            h.kernels[k - 1],
            1,
            1,
        );
    }
}

/// Conditions fit where each stack reads as many channels as there are.
proof fn lemma_condition<S>(arrays: Seq<ArraySpec<S>>, outputs: nat, i: nat)
    requires
        i <= arrays.len(),
    ensures
        condition_error(arrays, outputs, i) is None <==> forall|k: int|
            i <= k < arrays.len() ==> (#[trigger] arrays[k]).condition_size == outputs,
    decreases arrays.len() - i,
{
    if i < arrays.len() {
        lemma_condition(arrays, outputs, i + 1);
    }
}

/// A network can be made: each stack can, and adds to as many channels as the one
/// before gives; the head can; a network for the condition reads as many channels
/// and gives as many as every stack asks for; there are as many weights as the
/// parts have; and how far it looks back can be counted.
pub open spec fn net_can_be_made<S: Scalar>(
    inputs: nat,
    arrays: Seq<ArraySpec<S>>,
    head: Option<HeadPlan<S>>,
    condition: Option<NetModel<S>>,
    data: Seq<S>,
) -> bool {
    &&& forall|i: int|
        0 <= i < arrays.len() ==> stack_can_be_made(array_plan(#[trigger] arrays[i]))
    &&& forall|i: int|
        0 < i < arrays.len() ==> arrays[i - 1].head_size == #[trigger] head_rows(arrays[i])
    &&& head matches Some(h) ==> head_can_be_made(h)
    &&& condition matches Some(cd) ==> cd.inputs == inputs && (forall|i: int|
        0 <= i < arrays.len() ==> (#[trigger] arrays[i]).condition_size == cd.outputs)
    &&& data.len() == net_count(arrays, head)
    &&& net_reach(net_from(inputs, arrays, head, condition, data)) <= usize::MAX
}

/// Networks are made exactly where they can be.
pub proof fn networks_that_can_be_made<S: Scalar>(
    inputs: nat,
    arrays: Seq<ArraySpec<S>>,
    head: Option<HeadPlan<S>>,
    condition: Option<NetModel<S>>,
    data: Seq<S>,
)
    ensures
        net_of(inputs, arrays, head, condition, data) is Ok <==> net_can_be_made(
            inputs,
            arrays,
            head,
            condition,
            data,
        ),
{
    lemma_stacks(arrays, arrays.len());
    if let Some(h) = head {
        lemma_head(h, h.kernels.len());
    }
    if let Some(cd) = condition {
        lemma_condition(arrays, cd.outputs, 0);
    }
}

// Recurrent networks =========================================================

/// The tables of a cell can be addressed.
pub open spec fn cell_can_be_made(inputs: nat, hidden: nat) -> bool {
    &&& 4 * hidden <= usize::MAX
    &&& inputs + hidden <= usize::MAX
    &&& (4 * hidden) * (inputs + hidden) <= usize::MAX
}

/// How many weights a recurrent network of these sizes has after its first cell:
/// each cell four rows, their biases, and two numbers for each hidden number.
proof fn lemma_cells<S>(z: LstmSizes, data: Seq<S>, k: nat)
    requires
        k <= z.layers,
    ensures
        cells_error(z, data.len(), k) is None <==> {
            &&& forall|i: int|
                0 <= i < k ==> cell_can_be_made(#[trigger] cell_inputs(z, i), z.hidden as nat)
            &&& cells_start(z, k) <= data.len() || k == 0
        },
    decreases k,
{
    if k > 0 {
        let j = (k - 1) as nat;
        lemma_cells(z, data, j);
        if cells_error(z, data.len(), k) is None {
            assert forall|i: int| 0 <= i < k implies cell_can_be_made(
                #[trigger] cell_inputs(z, i),
                z.hidden as nat,
            ) by {}
        } else if forall|i: int|
            0 <= i < k ==> cell_can_be_made(#[trigger] cell_inputs(z, i), z.hidden as nat) {
            assert(cell_can_be_made(cell_inputs(z, k - 1), z.hidden as nat));
            assert(cells_start(z, j) <= cells_start(z, k));
        }
    }
}

/// Recurrent networks are made exactly where there is a cell, the tables can be
/// addressed, and there are as many weights as the parts have.
pub proof fn recurrent_networks_that_can_be_made<S: Scalar>(
    z: LstmSizes,
    data: Seq<S>,
    rate: S::Wide,
)
    ensures
        lstm_sized(z, data, rate) is Ok <==> {
            &&& z.layers >= 1
            &&& cell_can_be_made(z.input as nat, z.hidden as nat)
            &&& z.layers >= 2 ==> cell_can_be_made(z.hidden as nat, z.hidden as nat)
            &&& z.outputs * z.hidden <= usize::MAX
            &&& data.len() == lstm_count(z)
        },
{
    lemma_cells(z, data, z.layers as nat);
    vstd::arithmetic::mul::lemma_mul_nonnegative(z.outputs as int, z.hidden as int);
    if lstm_sized(z, data, rate) is Ok {
        assert(cell_can_be_made(cell_inputs(z, 0), z.hidden as nat));
        if z.layers >= 2 {
            assert(cell_can_be_made(cell_inputs(z, 1), z.hidden as nat));
        }
    }
}

} // verus!
