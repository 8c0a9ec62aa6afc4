//! Building layers and stacks from their configuration.

use crate::num::{lawful, Scalar};
use crate::pure::activations::Activation;
use crate::pure::array_config::{array_spec_wf, head_rows, ArraySpec, LayerArraySpec};
use crate::pure::array_setup::{layer_plans, layers_biased};
use crate::pure::conv1d::{dilated_error, Conv1D};
use crate::pure::film::{film_error, film_fits, Film};
use crate::pure::layer::{opt_act, z_rows, GatingMode, Layer};
use crate::pure::layer_array::{layers_wf, LayerArray};
use crate::pure::layer_setup::film_plan;
use crate::pure::mat::Mat;
use crate::pure::nn::{affine_error, oversize_message, oversize_text, product_fits, Conv1x1};
use crate::pure::plan::{
    film_dim, ArrayPlan, LayerPlan, FILM_ACTIVATION_POST, FILM_ACTIVATION_PRE, FILM_CONV_POST,
    FILM_CONV_PRE, FILM_HEAD1X1_POST, FILM_INPUT_MIXIN_POST, FILM_INPUT_MIXIN_PRE,
    FILM_LAYER1X1_POST,
};
use vstd::prelude::*;

verus! {

// Layers =====================================================================

/// Shift and groups of the modulation at place `slot`, where there is one.
pub open spec fn slot_plan<S>(a: ArraySpec<S>, slot: int) -> Option<(bool, nat)> {
    let p = a.films[slot];
    if p.active && (slot == FILM_LAYER1X1_POST ==> a.layer1x1_active) && (slot == FILM_HEAD1X1_POST
        ==> a.head1x1_active) {
        Some((p.shift, p.groups as nat))
    } else {
        None
    }
}

/// The shape of layer `li` of a stack.
pub open spec fn layer_plan<S>(a: ArraySpec<S>, li: int) -> LayerPlan<S> {
    LayerPlan {
        channels: a.channels as nat,
        condition: a.condition_size as nat,
        bottleneck: a.bottleneck as nat,
        gating: a.gating_modes[li],
        act: a.activations[li],
        secondary: a.secondary_activations[li],
        kernel: a.kernel_sizes[li] as nat,
        dilation: a.dilations[li] as nat,
        groups_input: a.groups_input as nat,
        groups_mixin: a.groups_input_mixin as nat,
        layer1x1: if a.layer1x1_active {
            Some(a.layer1x1_groups as nat)
        } else {
            None
        },
        head1x1: if a.head1x1_active {
            Some((a.head1x1_out as nat, a.head1x1_groups as nat))
        } else {
            None
        },
        films: Seq::new(8, |k: int| slot_plan(a, k)),
    }
}

/// Why part `k` of a layer cannot be made, where it cannot. The parts are the
/// convolution, the contribution of the condition, the two projections and the
/// modulations.
pub open spec fn part_error<S>(p: LayerPlan<S>, k: int) -> Option<Seq<char>> {
    let zr = z_rows(p.gating, p.bottleneck);
    if k == 0 {
        dilated_error(p.channels, zr, p.kernel, p.dilation, p.groups_input)
    } else if k == 1 {
        affine_error(p.condition, zr, p.groups_mixin)
    } else if k == 2 {
        match p.layer1x1 {
            Some(groups) => affine_error(p.bottleneck, p.channels, groups),
            None => None,
        }
    } else if k == 3 {
        match p.head1x1 {
            Some((out, groups)) => affine_error(p.bottleneck, out, groups),
            None => None,
        }
    } else {
        match p.films[k - 4] {
            Some((shift, groups)) => film_error(p.condition, film_dim(p, k - 4), shift, groups),
            None => None,
        }
    }
}

/// Why the first `k` parts of a layer cannot be made, where they cannot.
pub open spec fn parts_error<S>(p: LayerPlan<S>, k: nat) -> Option<Seq<char>>
    decreases k,
{
    if k == 0 {
        None
    } else {
        match parts_error(p, (k - 1) as nat) {
            Some(e) => Some(e),
            None => part_error(p, k - 1),
        }
    }
}

/// Why a layer cannot be made, where it cannot.
pub open spec fn layer_error<S>(p: LayerPlan<S>) -> Option<Seq<char>> {
    if z_rows(p.gating, p.bottleneck) > usize::MAX {
        Some(oversize_text())
    } else {
        parts_error(p, 12)
    }
}

/// The parts after one that cannot be made do not matter.
proof fn lemma_parts_stop<S>(p: LayerPlan<S>, j: nat, k: nat)
    requires
        j <= k,
        parts_error(p, j) is Some,
    ensures
        parts_error(p, k) == parts_error(p, j),
    decreases k - j,
{
    if j < k {
        lemma_parts_stop(p, j, (k - 1) as nat);
    }
}

/// Make the modulation at place `slot`, where there is one.
fn build_film<S: Scalar>(
    spec: &LayerArraySpec<S>,
    slot: usize,
    dim: usize,
    Ghost(p): Ghost<LayerPlan<S>>,
) -> (r: Result<Option<Film<S>>, String>)
    requires
        lawful::<S>(),
        slot < 8,
        p.films[slot as int] == slot_plan(spec.model(), slot as int),
        p.condition == spec.condition_size,
        slot == FILM_LAYER1X1_POST ==> spec.layer1x1_active,
        slot == FILM_HEAD1X1_POST ==> spec.head1x1_active,
        dim == film_dim(p, slot as int),
    ensures
        match r {
            Ok(film) => {
                &&& part_error(p, slot + 4) is None
                &&& film_fits(film, dim as nat, p.condition)
                &&& film_plan(film) == p.films[slot as int]
            },
            Err(e) => part_error(p, slot + 4) == Some(e@),
        },
{
    let f = spec.films[slot];
    if f.active {
        match Film::new(spec.condition_size, dim, f.shift, f.groups) {
            Ok(film) => Ok(Some(film)),
            Err(e) => Err(e),
        }
    } else {
        Ok(None)
    }
}

/// The modulations of a layer.
struct Films<S> {
    conv_pre: Option<Film<S>>,
    conv_post: Option<Film<S>>,
    mixin_pre: Option<Film<S>>,
    mixin_post: Option<Film<S>>,
    act_pre: Option<Film<S>>,
    act_post: Option<Film<S>>,
    layer1x1_post: Option<Film<S>>,
    head1x1_post: Option<Film<S>>,
}

spec fn film_made<S: Scalar>(film: Option<Film<S>>, p: LayerPlan<S>, slot: int) -> bool {
    &&& film_fits(film, film_dim(p, slot), p.condition)
    &&& film_plan(film) == p.films[slot]
}

/// Make the modulations of a layer.
fn build_films<S: Scalar>(
    spec: &LayerArraySpec<S>,
    z_channels: usize,
    Ghost(p): Ghost<LayerPlan<S>>,
) -> (r: Result<Films<S>, String>)
    requires
        lawful::<S>(),
        p.films == Seq::new(8, |k: int| slot_plan(spec.model(), k)),
        p.condition == spec.condition_size,
        p.channels == spec.channels,
        p.bottleneck == spec.bottleneck,
        z_channels == z_rows(p.gating, p.bottleneck),
        p.head1x1 matches Some((out, _)) ==> out == spec.head1x1_out,
        p.head1x1 is Some <==> spec.head1x1_active,
        parts_error(p, 4) is None,
    ensures
        match r {
            Ok(f) => {
                &&& parts_error(p, 12) is None
                &&& film_made(f.conv_pre, p, 0)
                &&& film_made(f.conv_post, p, 1)
                &&& film_made(f.mixin_pre, p, 2)
                &&& film_made(f.mixin_post, p, 3)
                &&& film_made(f.act_pre, p, 4)
                &&& film_made(f.act_post, p, 5)
                &&& film_made(f.layer1x1_post, p, 6)
                &&& film_made(f.head1x1_post, p, 7)
            },
            Err(e) => parts_error(p, 12) == Some(e@),
        },
{
    proof {
        reveal_with_fuel(parts_error, 10);
    }
    let conv_pre = match build_film(spec, FILM_CONV_PRE, spec.channels, Ghost(p)) {
        Ok(f) => f,
        Err(e) => {
            return Err(e);
        },
    };
    let conv_post = match build_film(spec, FILM_CONV_POST, z_channels, Ghost(p)) {
        Ok(f) => f,
        Err(e) => {
            return Err(e);
        },
    };
    let mixin_pre = match build_film(spec, FILM_INPUT_MIXIN_PRE, spec.condition_size, Ghost(p)) {
        Ok(f) => f,
        Err(e) => {
            return Err(e);
        },
    };
    let mixin_post = match build_film(spec, FILM_INPUT_MIXIN_POST, z_channels, Ghost(p)) {
        Ok(f) => f,
        Err(e) => {
            return Err(e);
        },
    };
    let act_pre = match build_film(spec, FILM_ACTIVATION_PRE, z_channels, Ghost(p)) {
        Ok(f) => f,
        Err(e) => {
            return Err(e);
        },
    };
    let act_post = match build_film(spec, FILM_ACTIVATION_POST, spec.bottleneck, Ghost(p)) {
        Ok(f) => f,
        Err(e) => {
            return Err(e);
        },
    };
    let layer1x1_post = if spec.layer1x1_active {
        match build_film(spec, FILM_LAYER1X1_POST, spec.channels, Ghost(p)) {
            Ok(f) => f,
            Err(e) => {
                return Err(e);
            },
        }
    } else {
        None
    };
    let head1x1_post = if spec.head1x1_active {
        match build_film(spec, FILM_HEAD1X1_POST, spec.head1x1_out, Ghost(p)) {
            Ok(f) => f,
            Err(e) => {
                return Err(e);
            },
        }
    } else {
        None
    };
    Ok(
        Films {
            conv_pre,
            conv_post,
            mixin_pre,
            mixin_post,
            act_pre,
            act_post,
            layer1x1_post,
            head1x1_post,
        },
    )
}

fn duplicate_optional<S: Scalar>(a: &Option<Activation<S>>) -> (r: Option<Activation<S>>)
    ensures
        opt_act(r) == opt_act(*a),
{
    match a {
        Some(x) => Some(x.duplicate()),
        None => None,
    }
}

/// Make layer `li` of a stack, without weights.
pub fn build_layer<S: Scalar>(spec: &LayerArraySpec<S>, li: usize) -> (r: Result<Layer<S>, String>)
    requires
        lawful::<S>(),
        array_spec_wf(spec.model()),
        li < spec.dilations@.len(),
    ensures
        match r {
            Ok(l) => {
                &&& layer_error(layer_plan(spec.model(), li as int)) is None
                &&& l.wf()
                &&& l.standard_bias()
                &&& l.plan() == layer_plan(spec.model(), li as int)
            },
            Err(e) => layer_error(layer_plan(spec.model(), li as int)) == Some(e@),
        },
{
    let ghost p = layer_plan(spec.model(), li as int);
    proof {
        reveal_with_fuel(parts_error, 5);
        assert(spec.model().activations[li as int] == spec.activations@[li as int].model());
        assert(spec.model().secondary_activations[li as int] == opt_act(
            spec.secondary_activations@[li as int],
        ));
    }
    let gating = spec.gating_modes[li];
    let gated = match gating {
        GatingMode::Ungated => false,
        _ => true,
    };
    if gated && !product_fits(2, spec.bottleneck) {
        return Err(oversize_message());
    }
    let z_channels = if gated {
        2 * spec.bottleneck
    } else {
        spec.bottleneck
    };
    let conv = match Conv1D::new(
        spec.channels,
        z_channels,
        spec.kernel_sizes[li],
        true,
        spec.dilations[li],
        spec.groups_input,
    ) {
        Ok(c) => c,
        Err(e) => {
            proof {
                lemma_parts_stop(p, 1, 12);
            }
            return Err(e);
        },
    };
    let input_mixin = match Conv1x1::new(
        spec.condition_size,
        z_channels,
        false,
        spec.groups_input_mixin,
    ) {
        Ok(c) => c,
        Err(e) => {
            proof {
                lemma_parts_stop(p, 2, 12);
            }
            return Err(e);
        },
    };
    let layer1x1 = if spec.layer1x1_active {
        match Conv1x1::new(spec.bottleneck, spec.channels, true, spec.layer1x1_groups) {
            Ok(c) => Some(c),
            Err(e) => {
                proof {
                    lemma_parts_stop(p, 3, 12);
                }
                return Err(e);
            },
        }
    } else {
        None
    };
    let head1x1 = if spec.head1x1_active {
        match Conv1x1::new(spec.bottleneck, spec.head1x1_out, true, spec.head1x1_groups) {
            Ok(c) => Some(c),
            Err(e) => {
                proof {
                    lemma_parts_stop(p, 4, 12);
                }
                return Err(e);
            },
        }
    } else {
        None
    };
    let films = match build_films(spec, z_channels, Ghost(p)) {
        Ok(f) => f,
        Err(e) => {
            return Err(e);
        },
    };
    assert(0 * z_channels == 0) by (nonlinear_arith);
    let layer = Layer {
        conv,
        input_mixin,
        layer1x1,
        head1x1,
        activation: spec.activations[li].duplicate(),
        secondary_activation: duplicate_optional(&spec.secondary_activations[li]),
        gating,
        bottleneck: spec.bottleneck,
        channels: spec.channels,
        conv_pre_film: films.conv_pre,
        conv_post_film: films.conv_post,
        input_mixin_pre_film: films.mixin_pre,
        input_mixin_post_film: films.mixin_post,
        activation_pre_film: films.act_pre,
        activation_post_film: films.act_post,
        layer1x1_post_film: films.layer1x1_post,
        head1x1_post_film: films.head1x1_post,
        z: Mat::new(z_channels, 0),
        out_next: Mat::new(spec.channels, 0),
    };
    assert(layer.plan().films =~= p.films);
    Ok(layer)
}

// Stacks =====================================================================

/// The shape of a stack.
pub open spec fn array_plan<S>(a: ArraySpec<S>) -> ArrayPlan<S> {
    ArrayPlan {
        input: a.input_size as nat,
        channels: a.channels as nat,
        layers: Seq::new(a.dilations.len(), |i: int| layer_plan(a, i)),
        head_rows: head_rows(a) as nat,
        head_size: a.head_size as nat,
        head_kernel: a.head_kernel_size as nat,
        head_dilation: a.head_dilation as nat,
        head_bias: a.head_bias,
    }
}

/// Why the first `k` layers of a stack cannot be made, where they cannot.
pub open spec fn layers_error<S>(layers: Seq<LayerPlan<S>>, k: nat) -> Option<Seq<char>>
    decreases k,
{
    if k == 0 {
        None
    } else {
        match layers_error(layers, (k - 1) as nat) {
            Some(e) => Some(e),
            None => layer_error(layers[k - 1]),
        }
    }
}

/// Why a stack cannot be made, where it cannot.
pub open spec fn array_error<S>(p: ArrayPlan<S>) -> Option<Seq<char>> {
    match layers_error(p.layers, p.layers.len()) {
        Some(e) => Some(e),
        None => match affine_error(p.input, p.channels, 1) {
            Some(e) => Some(e),
            None => dilated_error(p.head_rows, p.head_size, p.head_kernel, p.head_dilation, 1),
        },
    }
}

/// The layers after one that cannot be made do not matter.
proof fn lemma_layers_stop<S>(layers: Seq<LayerPlan<S>>, j: nat, k: nat)
    requires
        j <= k,
        layers_error(layers, j) is Some,
    ensures
        layers_error(layers, k) == layers_error(layers, j),
    decreases k - j,
{
    if j < k {
        lemma_layers_stop(layers, j, (k - 1) as nat);
    }
}

/// A layer has the shape that was asked for.
#[verifier::opaque]
spec fn layer_made<S: Scalar>(layer: Layer<S>, p: LayerPlan<S>) -> bool {
    &&& layer.wf()
    &&& layer.standard_bias()
    &&& layer.plan() == p
}

/// The layers that were asked for fit each other.
proof fn lemma_layers_made<S: Scalar>(layers: Seq<Layer<S>>, a: ArraySpec<S>)
    requires
        layers.len() == a.dilations.len(),
        forall|i: int|
            0 <= i < layers.len() ==> layer_made(#[trigger] layers[i], layer_plan(a, i)),
    ensures
        layers_wf(layers, a.channels, head_rows(a)),
        layers_biased(layers),
        layer_plans(layers) == array_plan(a).layers,
{
    assert forall|i: int| 0 <= i < layers.len() implies {
        &&& (#[trigger] layers[i]).wf()
        &&& layers[i].channels == a.channels
        &&& layers[i].skip_rows() >= head_rows(a)
        &&& layers[i].standard_bias()
        &&& layers[i].plan() == layer_plan(a, i)
    } by {
        assert(layer_made(layers[i], layer_plan(a, i)));
        reveal(layer_made);
        assert(layers[i].plan().head1x1 == layer_plan(a, i).head1x1);
        assert(layers[i].plan().bottleneck == layer_plan(a, i).bottleneck);
        assert(layers[i].plan().channels == layer_plan(a, i).channels);
    }
    assert(layer_plans(layers) =~= array_plan(a).layers);
}

/// Make a stack, without weights.
pub fn build_layer_array<S: Scalar>(spec: &LayerArraySpec<S>) -> (r: Result<
    LayerArray<S>,
    String,
>)
    requires
        lawful::<S>(),
        array_spec_wf(spec.model()),
    ensures
        match r {
            Ok(la) => {
                &&& array_error(array_plan(spec.model())) is None
                &&& la.wf()
                &&& la.standard_bias()
                &&& la.plan() == array_plan(spec.model())
            },
            Err(e) => array_error(array_plan(spec.model())) == Some(e@),
        },
{
    let ghost a = spec.model();
    let ghost p = array_plan(a);
    let ghost len = p.layers.len();
    let mut layers: Vec<Layer<S>> = Vec::new();
    let mut li: usize = 0;
    while li < spec.dilations.len()
        invariant
            lawful::<S>(),
            array_spec_wf(spec.model()),
            a == spec.model(),
            p == array_plan(a),
            li <= spec.dilations@.len(),
            len == spec.dilations@.len(),
            layers@.len() == li,
            layers_error(p.layers, li as nat) is None,
            forall|i: int|
                0 <= i < li ==> layer_made(#[trigger] layers@[i], layer_plan(a, i)),
        decreases spec.dilations@.len() - li,
    {
        assert(p.layers[li as int] == layer_plan(a, li as int));
        match build_layer(spec, li) {
            Ok(l) => {
                assert(layer_made(l, layer_plan(a, li as int))) by {
                    reveal(layer_made);
                }
                layers.push(l);
            },
            Err(e) => {
                proof {
                    lemma_layers_stop(p.layers, (li + 1) as nat, len);
                }
                return Err(e);
            },
        }
        li += 1;
    }
    proof {
        lemma_layers_made(layers@, a);
    }
    let head_output_size = spec.head_output_size();
    let rechannel = match Conv1x1::new(spec.input_size, spec.channels, false, 1) {
        Ok(c) => c,
        Err(e) => {
            return Err(e);
        },
    };
    let head_rechannel = match Conv1D::new(
        head_output_size,
        spec.head_size,
        spec.head_kernel_size,
        spec.head_bias,
        spec.head_dilation,
        1,
    ) {
        Ok(c) => c,
        Err(e) => {
            return Err(e);
        },
    };
    Ok(
        LayerArray {
            rechannel,
            layers,
            head_inputs: Mat::new(head_output_size, 0),
            head_rechannel,
            head_output_size,
        },
    )
}

} // verus!
