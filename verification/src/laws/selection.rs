//! What selecting a ratio does, for containers of models and for networks that
//! can be reduced.

use crate::json::Tree;
use crate::laws::sizes::every_ratio_can_be_selected;
use crate::num::{Sample, Scalar};
use crate::pure::array_config::array_spec_wf;
use crate::pure::dsp::{picked, selected, selection_changes, Dsp, DspModel};
use crate::pure::dsp_config::{dsp_of, last_bound, submodels_of, subs_of};
use crate::pure::lstm::lstm_channels;
use crate::pure::model::{model_inputs, model_outputs, ZERO_BITS};
use crate::pure::net_config::{inputs_of, parts_of, specs_of};
use crate::pure::slim::{
    channels_for, full_channels, sizes_in_order, slim_model_wf, slim_net, slim_spec, slim_specs,
    step_index, SlimModel,
};
use crate::pure::slim_config::allowed_wf;
use vstd::prelude::*;

verus! {

// Containers =================================================================

/// A container selects the first of its models whose bound is above the ratio,
/// or the last where none is.
pub proof fn first_above<S: Scalar>(subs: Seq<(S::Wide, DspModel<S>)>, val: S::Wide)
    requires
        subs.len() > 0,
    ensures
        ({
            let k = picked(subs, val, 0) as int;
            &&& k < subs.len()
            &&& forall|j: int| 0 <= j < k ==> !val.lt_spec(#[trigger] subs[j].0)
            &&& val.lt_spec(subs[k].0) || k == subs.len() - 1
        }),
{
    lemma_first_above(subs, val, 0);
}

/// From number `i` on.
proof fn lemma_first_above<S: Scalar>(
    subs: Seq<(S::Wide, DspModel<S>)>,
    val: S::Wide,
    i: nat,
)
    requires
        subs.len() > 0,
        i <= subs.len(),
        forall|j: int| 0 <= j < i ==> !val.lt_spec(#[trigger] subs[j].0),
    ensures
        ({
            let k = picked(subs, val, i) as int;
            &&& k < subs.len()
            &&& forall|j: int| 0 <= j < k ==> !val.lt_spec(#[trigger] subs[j].0)
            &&& val.lt_spec(subs[k].0) || k == subs.len() - 1
        }),
    decreases subs.len() - i,
{
    if i < subs.len() && !val.lt_spec(subs[i as int].0) {
        lemma_first_above(subs, val, i + 1);
    }
}

/// In a container that was loaded no bound is as small as the one before.
pub proof fn bounds_ascend<S: Scalar>(items: Seq<Tree>, k: nat)
    requires
        k <= items.len(),
        subs_of::<S>(items, k) is Ok,
    ensures
        subs_of::<S>(items, k)->Ok_0.len() == k,
        forall|i: int|
            0 < i < k ==> !#[trigger] bound_at(subs_of::<S>(items, k)->Ok_0, i).le_spec(
                bound_at(subs_of::<S>(items, k)->Ok_0, i - 1),
            ),
    decreases k,
{
    if k > 0 {
        bounds_ascend::<S>(items, (k - 1) as nat);
        let before = subs_of::<S>(items, (k - 1) as nat)->Ok_0;
        let subs = subs_of::<S>(items, k)->Ok_0;
        assert forall|i: int| 0 < i < k implies !#[trigger] bound_at(subs, i).le_spec(
            bound_at(subs, i - 1),
        ) by {
            if i < k - 1 {
                assert(bound_at(subs, i) == bound_at(before, i));
                assert(bound_at(subs, i - 1) == bound_at(before, i - 1));
            } else {
                assert(bound_at(subs, i - 1) == last_bound::<S>(before));
            }
        }
    }
}

/// The bound of model `i` of a container.
pub open spec fn bound_at<S: Scalar>(subs: Seq<(S::Wide, DspModel<S>)>, i: int) -> S::Wide {
    subs[i].0
}

// Defaults ===================================================================

/// A loaded model has its full size: a container has selected its last model,
/// and a network that can be reduced has all of its channels.
pub proof fn full_size_is_the_default<S: Scalar>(value: Tree)
    requires
        dsp_of::<S>(value) is Ok,
    ensures
        match dsp_of::<S>(value)->Ok_0 {
            DspModel::Container(subs, active) => active == subs.len() - 1,
            DspModel::Slim(m, channels, net) => {
                &&& channels == full_channels(m.arrays)
                &&& slim_net(m, channels) == Ok::<_, Seq<char>>(net)
            },
            _ => true,
        },
{
}

// Ratios =====================================================================

/// The bit pattern of one in binary64.
pub const ONE_BITS: u64 = 0x3FF0_0000_0000_0000;

/// A number of steps that machine numbers count exactly.
pub open spec fn countable(len: int) -> bool {
    0 < len <= isize::MAX && len <= 0x20_0000_0000_0000
}

/// What ratios of a number type do as real numbers do: a larger ratio is as many
/// steps or more, zero is none, and one is all of them.
pub open spec fn ordered_steps<D: Sample>() -> bool {
    &&& forall|a: D, b: D, len: usize|
        countable(len as int) && a.le_spec(b) ==> #[trigger] a.step_of_spec(len)
            <= #[trigger] b.step_of_spec(len)
    &&& forall|len: usize|
        countable(len as int) ==> #[trigger] D::from_bits_spec(ZERO_BITS).step_of_spec(len) == 0
    &&& forall|len: usize|
        countable(len as int) ==> #[trigger] D::from_bits_spec(ONE_BITS).step_of_spec(len) == len
}

/// The steps of every list of sizes can be counted.
pub open spec fn countable_lists<S>(m: SlimModel<S>) -> bool {
    forall|i: int|
        0 <= i < m.allowed.len() && (#[trigger] m.allowed[i]).len() > 0 ==> countable(
            m.allowed[i].len() as int,
        )
}

/// A larger ratio selects no fewer channels.
pub proof fn larger_ratio_selects_no_fewer<S: Scalar>(
    m: SlimModel<S>,
    a: S::Wide,
    b: S::Wide,
    i: int,
)
    requires
        slim_model_wf(m),
        countable_lists(m),
        ordered_steps::<S::Wide>(),
        a.le_spec(b),
        0 <= i < m.arrays.len(),
    ensures
        channels_for(m, a).len() == m.arrays.len(),
        channels_for(m, a)[i] <= channels_for(m, b)[i],
{
    let list = m.allowed[i];
    assert(allowed_wf(list, m.arrays[i].channels));
    if list.len() > 0 {
        let len = list.len() as usize;
        assert(a.step_of_spec(len) <= b.step_of_spec(len));
        let j = step_index(a, list.len());
        let k = step_index(b, list.len());
        if j < k {
            assert(list[j] < list[k]);
        }
    }
}

/// A ratio that is not above zero selects the first of each list.
pub proof fn lowest_ratio_selects_the_first<S: Scalar>(m: SlimModel<S>, val: S::Wide, i: int)
    requires
        slim_model_wf(m),
        countable_lists(m),
        ordered_steps::<S::Wide>(),
        val.le_spec(S::Wide::from_bits_spec(ZERO_BITS)),
        0 <= i < m.arrays.len(),
        m.allowed[i].len() > 0,
    ensures
        channels_for(m, val)[i] == m.allowed[i][0],
{
    let len = m.allowed[i].len() as usize;
    let zero = S::Wide::from_bits_spec(ZERO_BITS);
    assert(val.step_of_spec(len) <= zero.step_of_spec(len));
}

/// A ratio that is not below one selects all channels.
pub proof fn top_ratio_is_full_size<S: Scalar>(m: SlimModel<S>, val: S::Wide)
    requires
        slim_model_wf(m),
        countable_lists(m),
        ordered_steps::<S::Wide>(),
        S::Wide::from_bits_spec(ONE_BITS).le_spec(val),
    ensures
        channels_for(m, val) == full_channels(m.arrays),
{
    let one = S::Wide::from_bits_spec(ONE_BITS);
    assert forall|i: int|
        0 <= i < m.allowed.len() && (#[trigger] m.allowed[i]).len() > 0 implies val.step_of_spec(
        m.allowed[i].len() as usize,
    ) >= m.allowed[i].len() by {
        let len = m.allowed[i].len() as usize;
        assert(one.step_of_spec(len) <= val.step_of_spec(len));
    }
    lemma_all_steps(m, val);
}

/// A ratio of all steps selects all channels.
proof fn lemma_all_steps<S: Scalar>(m: SlimModel<S>, val: S::Wide)
    requires
        slim_model_wf(m),
        forall|i: int|
            0 <= i < m.allowed.len() && (#[trigger] m.allowed[i]).len() > 0 ==> val.step_of_spec(
                m.allowed[i].len() as usize,
            ) >= m.allowed[i].len(),
    ensures
        channels_for(m, val) == full_channels(m.arrays),
{
    assert forall|i: int| 0 <= i < m.arrays.len() implies #[trigger] channels_for(m, val)[i]
        == full_channels(m.arrays)[i] by {
        assert(allowed_wf(m.allowed[i], m.arrays[i].channels));
    }
    assert(channels_for(m, val) =~= full_channels(m.arrays));
}

/// Slimming loses nothing: after any selection, a ratio that is not below one
/// brings back the model as it was loaded.
pub proof fn top_ratio_is_the_way_back<S: Scalar>(value: Tree, a: S::Wide, top: S::Wide)
    requires
        dsp_of::<S>(value) is Ok,
        dsp_of::<S>(value)->Ok_0 is Slim,
        slim_is_sound(dsp_of::<S>(value)->Ok_0),
        countable_lists(dsp_of::<S>(value)->Ok_0->Slim_0),
        ordered_steps::<S::Wide>(),
        S::Wide::from_bits_spec(ONE_BITS).le_spec(top),
    ensures
        selected(selected(dsp_of::<S>(value)->Ok_0, a), top) == dsp_of::<S>(value)->Ok_0,
{
    let m = dsp_of::<S>(value)->Ok_0;
    full_size_is_the_default::<S>(value);
    top_ratio_is_full_size(m->Slim_0, top);
    selecting_keeps_sound(m, a);
}

/// A loaded container stays at its last model under every ratio that no earlier
/// bound is above.
pub proof fn containers_stay_at_the_last<S: Scalar>(value: Tree, val: S::Wide)
    requires
        dsp_of::<S>(value) is Ok,
        dsp_of::<S>(value)->Ok_0 matches DspModel::Container(subs, _) && forall|j: int|
            0 <= j < subs.len() - 1 ==> !val.lt_spec(#[trigger] subs[j].0),
    ensures
        selected(dsp_of::<S>(value)->Ok_0, val) == dsp_of::<S>(value)->Ok_0,
        !selection_changes(dsp_of::<S>(value)->Ok_0, val),
{
    if let DspModel::Container(subs, _) = dsp_of::<S>(value)->Ok_0 {
        if let Some(Tree::Text(_)) = value.get("architecture"@) {
            let items = submodels_of(value.get("config"@)->0)->0;
            bounds_ascend::<S>(items, items.len());
        }
        first_above(subs, val);
    }
}

/// One is full size, which is the default: it changes nothing in a model as it
/// was loaded, unless an earlier bound of a container is above one.
pub proof fn one_is_the_default<S: Scalar>(value: Tree)
    requires
        dsp_of::<S>(value) is Ok,
        slim_is_sound(dsp_of::<S>(value)->Ok_0),
        match dsp_of::<S>(value)->Ok_0 {
            DspModel::Container(subs, _) => forall|j: int|
                0 <= j < subs.len() - 1 ==> !S::Wide::from_bits_spec(ONE_BITS).lt_spec(
                    #[trigger] subs[j].0,
                ),
            DspModel::Slim(m, _, _) => countable_lists(m) && ordered_steps::<S::Wide>(),
            _ => true,
        },
    ensures
        selected(dsp_of::<S>(value)->Ok_0, S::Wide::from_bits_spec(ONE_BITS)) == dsp_of::<S>(
            value,
        )->Ok_0,
        !selection_changes(dsp_of::<S>(value)->Ok_0, S::Wide::from_bits_spec(ONE_BITS)),
{
    let one = S::Wide::from_bits_spec(ONE_BITS);
    match dsp_of::<S>(value)->Ok_0 {
        DspModel::Container(_, _) => containers_stay_at_the_last::<S>(value, one),
        DspModel::Slim(m, _, _) => {
            full_size_is_the_default::<S>(value);
            lemma_all_steps(m, one);
        },
        _ => {},
    }
}

/// A model that can be reduced is sound, and its network is the one with its
/// channels.
pub open spec fn slim_is_sound<S: Scalar>(m: DspModel<S>) -> bool {
    m matches DspModel::Slim(sm, channels, net) ==> {
        &&& slim_model_wf(sm)
        &&& forall|i: int| 0 <= i < sm.arrays.len() ==> array_spec_wf(#[trigger] sm.arrays[i])
        &&& slim_net(sm, channels) == Ok::<_, Seq<char>>(net)
    }
}

/// Every model whose shapes agree is sound in this sense.
pub proof fn models_are_sound<S: Scalar>(d: Dsp<S>)
    requires
        d.wf(),
    ensures
        slim_is_sound(d.model()),
{
    if let Dsp::SlimmableWaveNet(s) = d {
        let sm = s.model();
        assert forall|i: int| 0 <= i < sm.arrays.len() implies array_spec_wf(
            #[trigger] sm.arrays[i],
        ) by {
            assert(sm.arrays[i] == s.specs@[i].model());
        }
    }
}

/// After every selection the network is the one with the channels that the
/// model says it has.
pub proof fn selecting_keeps_sound<S: Scalar>(m: DspModel<S>, val: S::Wide)
    requires
        slim_is_sound(m),
    ensures
        slim_is_sound(selected(m, val)),
{
}

/// After every selection a network that can be reduced has the channels of the
/// ratio.
pub proof fn ratios_are_obeyed<S: Scalar>(m: DspModel<S>, val: S::Wide)
    requires
        slim_is_sound(m),
        m matches DspModel::Slim(sm, _, _) && sizes_in_order(sm),
    ensures
        selected(m, val) matches DspModel::Slim(sm, channels, net) && {
            &&& sm == m->Slim_0
            &&& channels == channels_for(sm, val)
            &&& slim_net(sm, channels) == Ok::<_, Seq<char>>(net)
        },
{
    every_ratio_can_be_selected(m->Slim_0, val);
}

/// Selecting a ratio again changes nothing.
pub proof fn selecting_again<S: Scalar>(m: DspModel<S>, val: S::Wide)
    ensures
        selected(selected(m, val), val) == selected(m, val),
        !selection_changes(selected(m, val), val),
{
}

/// The last selection counts.
pub proof fn last_selection_counts<S: Scalar>(m: DspModel<S>, a: S::Wide, b: S::Wide)
    requires
        slim_is_sound(m),
        m matches DspModel::Slim(sm, _, _) ==> sizes_in_order(sm),
    ensures
        selected(selected(m, a), b) == selected(m, b),
{
    selecting_keeps_sound(m, a);
    if let DspModel::Slim(sm, _, _) = m {
        every_ratio_can_be_selected(sm, b);
    }
}

/// Ordinary models have no sizes: nothing is selected.
pub proof fn ordinary_models_stay<S: Scalar>(m: DspModel<S>, val: S::Wide)
    requires
        m is Net || m is Lstm,
    ensures
        selected(m, val) == m,
        !selection_changes(m, val),
{
}

/// What is selected changes exactly where the selection is said to change.
pub proof fn unchanged_selection_keeps_the_model<S: Scalar>(m: DspModel<S>, val: S::Wide)
    requires
        !selection_changes(m, val),
    ensures
        selected(m, val) == m,
{
}

// Channels ===================================================================

/// The numbers of channels stay as they are under every selection.
pub proof fn selecting_keeps_the_channels<S: Scalar>(m: DspModel<S>, val: S::Wide)
    requires
        slim_is_sound(m),
    ensures
        model_inputs(selected(m, val)) == model_inputs(m),
        model_outputs(selected(m, val)) == model_outputs(m),
{
    if let DspModel::Slim(sm, channels, _) = m {
        lemma_net_channels(sm, channels);
        if slim_net(sm, channels_for(sm, val)) is Ok {
            lemma_net_channels(sm, channels_for(sm, val));
        }
    }
}

/// The model after the first `k` of a list of selections.
pub open spec fn after_selections<S: Scalar>(
    m: DspModel<S>,
    vals: Seq<S::Wide>,
    k: nat,
) -> DspModel<S>
    decreases k,
{
    if k == 0 {
        m
    } else {
        selected(after_selections(m, vals, (k - 1) as nat), vals[k - 1])
    }
}

/// However often sizes are selected, the numbers of channels stay as they are.
pub proof fn channels_never_change<S: Scalar>(m: DspModel<S>, vals: Seq<S::Wide>, k: nat)
    requires
        slim_is_sound(m),
    ensures
        slim_is_sound(after_selections(m, vals, k)),
        model_inputs(after_selections(m, vals, k)) == model_inputs(m),
        model_outputs(after_selections(m, vals, k)) == model_outputs(m),
    decreases k,
{
    if k > 0 {
        let before = after_selections(m, vals, (k - 1) as nat);
        channels_never_change(m, vals, (k - 1) as nat);
        selecting_keeps_sound(before, vals[k - 1]);
        selecting_keeps_the_channels(before, vals[k - 1]);
    }
}

/// Every size of a network has the channels of the full one.
proof fn lemma_net_channels<S: Scalar>(m: SlimModel<S>, targets: Seq<usize>)
    requires
        m.arrays.len() > 0,
        slim_net(m, targets) is Ok,
    ensures
        slim_net(m, targets)->Ok_0.inputs == m.inputs,
        slim_net(m, targets)->Ok_0.outputs == m.arrays.last().head_size,
{
    assert(slim_specs(m.arrays, targets).last() == slim_spec(
        m.arrays,
        targets,
        m.arrays.len() - 1,
    ));
}

/// A loaded model has the channels that its configuration says: a container has
/// one of each, a recurrent network what is given or one, and a network what is
/// given or one to read, and to write those of its head or else of its last stack.
pub proof fn channels_are_configured<S: Scalar>(value: Tree)
    requires
        dsp_of::<S>(value) is Ok,
    ensures
        ({
            let m = dsp_of::<S>(value)->Ok_0;
            let config = value.get("config"@)->0;
            match m {
                DspModel::Container(_, _) => model_inputs(m) == 1 && model_outputs(m) == 1,
                DspModel::Lstm(_) => {
                    &&& model_inputs(m) == lstm_channels(config, "in_channels"@)
                    &&& model_outputs(m) == lstm_channels(config, "out_channels"@)
                },
                DspModel::Net(_) => {
                    let parts = parts_of::<S>(config)->Ok_0;
                    &&& inputs_of(config) matches Ok(n) && model_inputs(m) == n
                    &&& model_outputs(m) == match parts.head {
                        Some(h) => h.outputs,
                        None => parts.arrays.last().head_size as nat,
                    }
                },
                DspModel::Slim(_, _, _) => {
                    &&& inputs_of(config) matches Ok(n) && model_inputs(m) == n
                    &&& specs_of::<S>(config) matches Ok(arrays) && model_outputs(m)
                        == arrays.last().head_size
                },
            }
        }),
{
}

} // verus!
