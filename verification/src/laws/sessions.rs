//! How a model is used: blocks of any length, resets, and what can be run.

use crate::laws::selection::first_above;
use crate::num::{Sample, Scalar};
use crate::pure::activations::{total, Act};
use crate::pure::conv1d::{lookback, Dilated};
use crate::pure::dsp::{
    dsp_reach, dsp_rest, dsp_run, net_runs, picked, selected, selection_changes, DspModel, DspState,
};
use crate::pure::film::Modulation;
use crate::pure::layer::{layer_total, GatingMode, LayerModel};
use crate::pure::layer_array::{array_fits, array_reads, array_total, layers_reach, ArrayModel};
use crate::pure::layer_setup::{dilated_fits, layer_fits, modulation_fits};
use crate::pure::model::{
    after_silence, at_least_one, blocks_for, chunk_run, narrowed, quiet_block, warm, widened,
    PureNamModel,
};
use crate::pure::net::{
    condition_rows, net_fits, net_reach, net_total, net_wired, stack_rows, stacks_reach, NetModel,
};
use crate::pure::post_head::stages_reach;
use vstd::arithmetic::div_mod::*;
use vstd::arithmetic::mul::*;
use vstd::prelude::*;

verus! {

// Blocks =====================================================================

/// Samples that fit into one block are run as they are, and nothing is run where
/// there are none.
pub proof fn short_blocks_are_run_whole<S: Scalar>(
    m: DspModel<S>,
    st: DspState<S>,
    x: Seq<S::Wide>,
    max: nat,
)
    requires
        x.len() <= max,
    ensures
        x.len() > 0 ==> chunk_run(m, st, x, max).state == dsp_run(m, st, x).state,
        x.len() > 0 ==> chunk_run(m, st, x, max).output == dsp_run(m, st, x).output,
        x.len() == 0 ==> chunk_run(m, st, x, max).state == st,
        x.len() == 0 ==> chunk_run(m, st, x, max).output.len() == 0,
{
    if x.len() > 0 {
        assert(x.take(x.len() as int) =~= x);
        let first = dsp_run(m, st, x);
        let rest = chunk_run(m, first.state, x.skip(x.len() as int), max);
        assert(x.skip(x.len() as int).len() == 0);
        assert(first.output + rest.output =~= first.output);
    }
}

/// Longer blocks are cut: a piece as long as there is room for is run first, and
/// the rest goes on from what the model remembers then.
pub proof fn long_blocks_are_cut<S: Scalar>(
    m: DspModel<S>,
    st: DspState<S>,
    piece: Seq<S::Wide>,
    rest: Seq<S::Wide>,
    max: nat,
)
    requires
        piece.len() == max,
        max > 0,
    ensures
        ({
            let first = dsp_run(m, st, piece);
            let then = chunk_run(m, first.state, rest, max);
            let all = chunk_run(m, st, piece + rest, max);
            &&& all.state == then.state
            &&& all.output == first.output + then.output
        }),
{
    let x = piece + rest;
    assert(x.take(max as int) =~= piece);
    assert(x.skip(max as int) =~= rest);
}

/// Numbers go into a model and come out of it one by one.
pub proof fn numbers_are_converted_one_by_one<S: Scalar>(x: Seq<S>, y: Seq<S::Wide>, i: int)
    ensures
        widened(x).len() == x.len(),
        narrowed::<S>(y).len() == y.len(),
        0 <= i < x.len() ==> widened(x)[i] == x[i].widen_spec(),
        0 <= i < y.len() ==> narrowed::<S>(y)[i] == S::narrow_spec(y[i]),
{
}

// Resets =====================================================================

/// `n` samples of zero.
pub open spec fn zeros_for<D: Sample>(n: nat) -> Seq<D> {
    Seq::new(n, |i: int| D::from_bits_spec(0))
}

/// A reset lets a model that has heard nothing hear as many full blocks of zeros
/// as it takes to reach as far as it looks back, and no more.
pub proof fn resets_let_silence_through<S: Scalar>(m: DspModel<S>, max: nat, k: nat)
    requires
        max > 0,
        dsp_reach(m) >= 0,
        k * max >= dsp_reach(m),
        k > 0 ==> (k - 1) * max < dsp_reach(m),
    ensures
        warm(m, max) == chunk_run(m, dsp_rest(m), zeros_for::<S::Wide>(k * max), max).state,
{
    let r = dsp_reach(m);
    let n = max as int;
    assert((r + n - 1) / n == k) by {
        let x = r + n - 1;
        lemma_fundamental_div_mod(x, n);
        lemma_mod_bound(x, n);
        let q = x / n;
        assert(q == k) by (nonlinear_arith)
            requires
                x == n * q + x % n,
                0 <= x % n < n,
                x == r + n - 1,
                k * n >= r,
                k > 0 ==> (k - 1) * n < r,
                r >= 0,
                n > 0,
                k >= 0,
        ;
    }
    assert(blocks_for(r, n) == k);
    lemma_silence(m, max, k);
}

/// Blocks of silence, one after the other.
proof fn lemma_silence<S: Scalar>(m: DspModel<S>, max: nat, k: nat)
    requires
        max > 0,
    ensures
        after_silence(m, dsp_rest(m), max, k) == chunk_run(
            m,
            dsp_rest(m),
            zeros_for::<S::Wide>(k * max),
            max,
        ).state,
{
    lemma_silence_from(m, dsp_rest(m), max, k);
}

/// One block of silence first, and the others after it.
proof fn lemma_silence_first<S: Scalar>(m: DspModel<S>, st: DspState<S>, max: nat, k: nat)
    ensures
        after_silence(m, st, max, k + 1) == after_silence(
            m,
            dsp_run(m, st, quiet_block::<S::Wide>(max)).state,
            max,
            k,
        ),
    decreases k,
{
    if k > 0 {
        lemma_silence_first(m, st, max, (k - 1) as nat);
    } else {
        reveal_with_fuel(after_silence, 2);
    }
}

/// Blocks of silence from any state on.
proof fn lemma_silence_from<S: Scalar>(m: DspModel<S>, st: DspState<S>, max: nat, k: nat)
    requires
        max > 0,
    ensures
        after_silence(m, st, max, k) == chunk_run(
            m,
            st,
            zeros_for::<S::Wide>(k * max),
            max,
        ).state,
    decreases k,
{
    if k == 0 {
        lemma_mul_basics(max as int);
    } else {
        let j = (k - 1) as nat;
        let quiet = quiet_block::<S::Wide>(max);
        lemma_silence_first(m, st, max, j);
        lemma_silence_from(m, dsp_run(m, st, quiet).state, max, j);
        assert(k * max == max + j * max) by (nonlinear_arith)
            requires
                k == j + 1,
        ;
        lemma_mul_nonnegative(j as int, max as int);
        assert(zeros_for::<S::Wide>(k * max) =~= quiet + zeros_for::<S::Wide>(j * max));
        long_blocks_are_cut(m, st, quiet, zeros_for::<S::Wide>(j * max), max);
    }
}

/// A model that has not been reset runs blocks of 4096 samples, after a reset for
/// them; a reset model goes on from where it is. A reset for no samples is one for
/// one sample.
pub proof fn unreset_models_use_the_default<S: Scalar>(p: PureNamModel<S>, n: usize)
    ensures
        p.max_buffer_size == 0 ==> p.block_size() == 4096 && p.entry_state() == warm(
            p.dsp.model(),
            4096,
        ),
        p.max_buffer_size > 0 ==> p.block_size() == p.max_buffer_size && p.entry_state()
            == p.dsp.state(),
        n > 0 ==> at_least_one(n) == n,
        at_least_one(0) == 1,
{
}

// How far a network looks back ===============================================

/// How many frames a convolution looks back.
pub open spec fn looks_back<S>(m: Dilated<S>) -> int {
    (m.weight.len() - 1) * m.dilation
}

/// Another layer behind the others looks back as far as its convolution more.
pub proof fn layers_add_their_reach<S>(layers: Seq<LayerModel<S>>, last: LayerModel<S>)
    ensures
        layers_reach(Seq::<LayerModel<S>>::empty()) == 0,
        layers_reach(layers.push(last)) == layers_reach(layers) + looks_back(last.conv),
{
    assert(layers.push(last).drop_last() =~= layers);
}

/// Another stack behind the others looks back as far as its layers and its head
/// more; every stage of the head after the stacks as far as its convolution; and
/// the whole network one frame more, or as far as the network for its condition.
pub proof fn networks_add_their_reach<S>(
    m: NetModel<S>,
    arrays: Seq<ArrayModel<S>>,
    last: ArrayModel<S>,
    stages: Seq<(Act<S>, Dilated<S>)>,
    stage: (Act<S>, Dilated<S>),
)
    ensures
        stacks_reach(Seq::<ArrayModel<S>>::empty()) == 0,
        stacks_reach(arrays.push(last)) == stacks_reach(arrays) + layers_reach(last.layers)
            + looks_back(last.head),
        stages_reach(Seq::<(Act<S>, Dilated<S>)>::empty()) == 0,
        stages_reach(stages.push(stage)) == stages_reach(stages) + looks_back(stage.1),
        m.condition is None && m.head is None ==> net_reach(m) == 1 + stacks_reach(m.arrays),
        m.condition is None && m.head is Some ==> net_reach(m) == 1 + stacks_reach(m.arrays)
            + stages_reach(m.head->0.stages),
        m.condition is Some && m.head is None ==> net_reach(m) == net_reach(*m.condition->0)
            + stacks_reach(m.arrays),
        m.condition is Some && m.head is Some ==> net_reach(m) == net_reach(*m.condition->0)
            + stacks_reach(m.arrays) + stages_reach(m.head->0.stages),
{
    assert(arrays.push(last).drop_last() =~= arrays);
    assert(stages.push(stage).drop_last() =~= stages);
}

// What can be run ============================================================

/// The channels of a network match: every stack reads what there is, every
/// contribution of the condition too, and every stack before the last has layers.
pub open spec fn channels_match<S>(m: NetModel<S>) -> bool {
    let heard = match m.condition {
        Some(cd) => cd.outputs,
        None => m.inputs,
    };
    &&& m.arrays.len() > 0
    &&& m.arrays[0].rechannel.inputs <= m.inputs
    &&& forall|i: int|
        0 < i < m.arrays.len() ==> (#[trigger] m.arrays[i]).rechannel.inputs <= m.arrays[i
            - 1].rechannel.outputs
    &&& forall|i: int|
        0 <= i < m.arrays.len() - 1 ==> (#[trigger] m.arrays[i]).layers.len() > 0
    &&& forall|i: int, l: int|
        0 <= i < m.arrays.len() && 0 <= l < m.arrays[i].layers.len()
            ==> (#[trigger] m.arrays[i].layers[l]).mixin.inputs <= heard
}

/// A network runs exactly where its channels match, those of the network for its
/// condition too, and where it has a channel to read and one to write.
pub proof fn networks_run_where_channels_match<S>(m: NetModel<S>)
    requires
        m.arrays.len() > 0,
    ensures
        net_wired(m) <==> channels_match(m) && (m.condition matches Some(cd) ==> net_wired(*cd)),
        net_runs(m) <==> m.inputs >= 1 && m.outputs >= 1 && net_wired(m),
{
    if net_wired(m) {
        assert(array_reads(
            m.arrays[0],
            stack_rows(m, 0),
            condition_rows(m),
        ));
        assert forall|i: int| 0 < i < m.arrays.len() implies (
        #[trigger] m.arrays[i]).rechannel.inputs <= m.arrays[i - 1].rechannel.outputs by {
            assert(array_reads(
                m.arrays[i],
                stack_rows(m, i),
                condition_rows(m),
            ));
        }
        assert forall|i: int, l: int|
            0 <= i < m.arrays.len() && 0 <= l < m.arrays[i].layers.len() implies (
        #[trigger] m.arrays[i].layers[l]).mixin.inputs <= condition_rows(m) by {
            assert(array_reads(
                m.arrays[i],
                stack_rows(m, i),
                condition_rows(m),
            ));
        }
    }
    if channels_match(m) {
        assert forall|i: int| 0 <= i < m.arrays.len() implies array_reads(
            m.arrays[i],
            #[trigger] stack_rows(m, i),
            condition_rows(m),
        ) by {
            if i > 0 {
                assert(m.arrays[i].rechannel.inputs <= m.arrays[i - 1].rechannel.outputs);
            }
        }
    }
}

/// A model that takes blocks takes shorter blocks too.
pub proof fn shorter_blocks_fit<S>(m: NetModel<S>, max: nat, less: nat)
    requires
        net_fits(m, max),
        less <= max,
    ensures
        net_fits(m, less),
    decreases m,
{
    assert forall|a: nat| max * a <= usize::MAX implies #[trigger] (less * a) <= usize::MAX by {
        lemma_mul_inequality(less as int, max as int, a as int);
    }
    assert forall|d: Dilated<S>| dilated_fits(
        d,
        max,
    ) implies #[trigger] dilated_fits(d, less) by {
        let back = lookback(d);
        lemma_mul_inequality(back + less, back + max, d.inputs as int);
        lemma_mul_inequality(less as int, max as int, d.outputs as int);
    }
    assert forall|i: int| 0 <= i < m.arrays.len() implies array_fits(
        #[trigger] m.arrays[i],
        less,
    ) by {
        let a = m.arrays[i];
        assert(array_fits(a, max));
        assert(less * a.rechannel.outputs <= usize::MAX);
        assert(less * a.head.inputs <= usize::MAX);
        assert(dilated_fits(a.head, less));
        assert forall|l: int| 0 <= l < a.layers.len() implies layer_fits(
            #[trigger] a.layers[l],
            less,
        ) by {
            lemma_layer_fits_less(a.layers[l], max, less);
        }
    }
    if let Some(h) = m.head {
        assert(less * h.inputs <= usize::MAX);
        assert forall|i: int| 0 <= i < h.stages.len() implies dilated_fits(
            (#[trigger] h.stages[i]).1,
            less,
        ) by {
            assert(dilated_fits(h.stages[i].1, max));
        }
    }
    if let Some(cd) = m.condition {
        shorter_blocks_fit(*cd, max, less);
    }
    assert(less * m.inputs <= usize::MAX);
    assert(less * m.outputs <= usize::MAX);
}

/// A layer takes shorter blocks too.
proof fn lemma_layer_fits_less<S>(m: LayerModel<S>, max: nat, less: nat)
    requires
        layer_fits(m, max),
        less <= max,
    ensures
        layer_fits(m, less),
{
    assert forall|a: nat| max * a <= usize::MAX implies #[trigger] (less * a) <= usize::MAX by {
        lemma_mul_inequality(less as int, max as int, a as int);
    }
    let back = lookback(m.conv);
    lemma_mul_inequality(back + less, back + max, m.conv.inputs as int);
    assert(less * m.conv.outputs <= usize::MAX);
    assert(less * m.mixin.outputs <= usize::MAX);
    assert(less * m.channels <= usize::MAX);
    assert forall|f: Option<Modulation<S>>|
        modulation_fits(
            f,
            max,
        ) implies #[trigger] modulation_fits(f, less) by {
        if let Some(x) = f {
            assert(less * x.conv.outputs <= usize::MAX);
            assert(less * x.dim <= usize::MAX);
        }
    }
    if let Some(p) = m.layer1x1 {
        assert(less * p.outputs <= usize::MAX);
    }
    if let Some(p) = m.head1x1 {
        assert(less * p.outputs <= usize::MAX);
    }
}

/// The only activation without a value everywhere is one with an empty list of
/// slopes.
pub proof fn only_empty_lists_lack_values<S>(a: Act<S>)
    ensures
        total(a) <==> !(a matches Act::PReLU(slopes) && slopes.len() == 0),
{
}

/// A network has values everywhere exactly where each of its activations has: those
/// of its layers, those of the upper halves that do something, those of its head,
/// and those of the network for its condition.
pub proof fn networks_have_values_where_activations_have<S>(m: NetModel<S>)
    ensures
        net_total(m) <==> {
            &&& forall|i: int, l: int|
                0 <= i < m.arrays.len() && 0 <= l < m.arrays[i].layers.len() ==> total(
                    (#[trigger] m.arrays[i].layers[l]).act,
                )
            &&& forall|i: int, l: int|
                0 <= i < m.arrays.len() && 0 <= l < m.arrays[i].layers.len()
                    && m.arrays[i].layers[l].gating != GatingMode::Ungated ==> ((
                #[trigger] m.arrays[i].layers[l]).secondary matches Some(a) ==> total(a))
            &&& m.head matches Some(h) ==> (forall|i: int|
                0 <= i < h.stages.len() ==> total((#[trigger] h.stages[i]).0))
            &&& m.condition matches Some(cd) ==> net_total(*cd)
        },
{
    if net_total(m) {
        assert forall|i: int, l: int|
            0 <= i < m.arrays.len() && 0 <= l < m.arrays[i].layers.len() implies total(
            (#[trigger] m.arrays[i].layers[l]).act,
        ) && (m.arrays[i].layers[l].gating != GatingMode::Ungated ==> (
        m.arrays[i].layers[l].secondary matches Some(a) ==> total(a))) by {
            assert(array_total(m.arrays[i]));
            assert(layer_total(m.arrays[i].layers[l]));
        }
    }
}

/// No part of a convolution is wider than `width`, and it looks back at most
/// `back` frames.
pub open spec fn conv_within<S>(m: Dilated<S>, width: nat, back: int) -> bool {
    m.inputs <= width && m.outputs <= width && looks_back(m) <= back
}

/// No part of a layer is wider than `width`, and it looks back at most `back`
/// frames.
pub open spec fn layer_within_room<S>(m: LayerModel<S>, width: nat, back: int) -> bool {
    &&& conv_within(m.conv, width, back)
    &&& m.mixin.outputs <= width
    &&& m.channels <= width
    &&& m.layer1x1 matches Some(p) ==> p.outputs <= width
    &&& m.head1x1 matches Some(p) ==> p.outputs <= width
    &&& film_within(m.conv_pre, width)
    &&& film_within(m.conv_post, width)
    &&& film_within(m.mixin_pre, width)
    &&& film_within(m.mixin_post, width)
    &&& film_within(m.act_pre, width)
    &&& film_within(m.act_post, width)
    &&& film_within(m.layer1x1_post, width)
    &&& film_within(m.head1x1_post, width)
}

/// No part of a modulation is wider than `width`.
pub open spec fn film_within<S>(m: Option<Modulation<S>>, width: nat) -> bool {
    m matches Some(f) ==> f.dim <= width && f.conv.outputs <= width
}

/// No part of a network is wider than `width`, and none looks back more than `back`
/// frames.
pub open spec fn net_within_room<S>(m: NetModel<S>, width: nat, back: int) -> bool
    decreases m,
{
    &&& m.inputs <= width
    &&& m.outputs <= width
    &&& forall|i: int|
        0 <= i < m.arrays.len() ==> (#[trigger] m.arrays[i]).rechannel.outputs <= width
            && conv_within(m.arrays[i].head, width, back)
    &&& forall|i: int, l: int|
        0 <= i < m.arrays.len() && 0 <= l < m.arrays[i].layers.len() ==> layer_within_room(
            #[trigger] m.arrays[i].layers[l],
            width,
            back,
        )
    &&& m.head matches Some(h) ==> h.inputs <= width && (forall|i: int|
        0 <= i < h.stages.len() ==> conv_within((#[trigger] h.stages[i]).1, width, back))
    &&& m.condition matches Some(cd) ==> net_within_room(*cd, width, back)
}

/// There is room for blocks wherever the widest part has room for the block and
/// for the frames that it looks back.
pub proof fn blocks_fit_where_there_is_room<S>(m: NetModel<S>, width: nat, back: int, max: nat)
    requires
        back >= 0,
        width >= 1,
        (back + max) * width <= usize::MAX,
        net_within_room(m, width, back),
    ensures
        net_fits(m, max),
    decreases m,
{
    assert forall|a: nat| a <= width implies #[trigger] (max * a) <= usize::MAX by {
        assert(max * a <= (back + max) * width) by (nonlinear_arith)
            requires
                a <= width,
                back >= 0,
        ;
    }
    assert forall|d: Dilated<S>| conv_within(
        d,
        width,
        back,
    ) implies #[trigger] dilated_fits(d, max) by {
        let b = looks_back(d);
        let inputs = d.inputs;
        assert(b + max <= (back + max) * width) by (nonlinear_arith)
            requires
                b <= back,
                width >= 1,
                back + max >= 0,
        ;
        if b + max >= 0 {
            assert((b + max) * inputs <= (back + max) * width) by (nonlinear_arith)
                requires
                    0 <= b + max <= back + max,
                    inputs <= width,
            ;
        } else {
            assert((b + max) * inputs <= 0) by (nonlinear_arith)
                requires
                    b + max < 0,
            ;
        }
        assert(max * d.outputs <= usize::MAX);
    }
    assert forall|i: int| 0 <= i < m.arrays.len() implies array_fits(
        #[trigger] m.arrays[i],
        max,
    ) by {
        let a = m.arrays[i];
        assert(max * a.rechannel.outputs <= usize::MAX);
        assert(dilated_fits(a.head, max));
        assert(max * a.head.inputs <= usize::MAX);
        assert forall|l: int| 0 <= l < a.layers.len() implies layer_fits(
            #[trigger] a.layers[l],
            max,
        ) by {
            let x = m.arrays[i].layers[l];
            assert(layer_within_room(x, width, back));
            assert(dilated_fits(x.conv, max));
            assert(max * x.mixin.outputs <= usize::MAX);
            assert(max * x.channels <= usize::MAX);
            assert forall|f: Option<Modulation<S>>|
                film_within(
                    f,
                    width,
                ) implies #[trigger] modulation_fits(f, max) by {
                if let Some(y) = f {
                    assert(max * y.conv.outputs <= usize::MAX);
                    assert(max * y.dim <= usize::MAX);
                }
            }
            if let Some(p) = x.layer1x1 {
                assert(max * p.outputs <= usize::MAX);
            }
            if let Some(p) = x.head1x1 {
                assert(max * p.outputs <= usize::MAX);
            }
        }
    }
    if let Some(h) = m.head {
        assert(max * h.inputs <= usize::MAX);
        assert forall|i: int| 0 <= i < h.stages.len() implies dilated_fits(
            (#[trigger] h.stages[i]).1,
            max,
        ) by {
            assert(conv_within(h.stages[i].1, width, back));
        }
    }
    if let Some(cd) = m.condition {
        blocks_fit_where_there_is_room(*cd, width, back, max);
    }
    assert(max * m.inputs <= usize::MAX);
    assert(max * m.outputs <= usize::MAX);
}

// Selections =================================================================

/// A container that is asked for a ratio keeps its models, and selects the first
/// whose bound is above the ratio, or the last where none is.
pub proof fn containers_select_by_bounds<S: Scalar>(
    subs: Seq<(S::Wide, DspModel<S>)>,
    active: nat,
    val: S::Wide,
    k: nat,
)
    requires
        k < subs.len(),
        forall|j: int| 0 <= j < k ==> !val.lt_spec(#[trigger] subs[j].0),
        val.lt_spec(subs[k as int].0) || k == subs.len() - 1,
    ensures
        selected(DspModel::Container(subs, active), val) == DspModel::<S>::Container(subs, k),
        selection_changes(DspModel::Container(subs, active), val) <==> k != active,
{
    first_above(subs, val);
    let p = picked(subs, val, 0) as int;
    if p < k {
        assert(!val.lt_spec(subs[p].0));
    } else if k < p {
        assert(!val.lt_spec(subs[k as int].0));
    }
}

} // verus!
