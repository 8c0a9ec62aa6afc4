//! Building a network from its configuration and its weights.

use crate::num::{lawful, Scalar};
use crate::pure::activations::Activation;
use crate::pure::array_config::{array_spec_wf, ctx, head_rows, in_array, ArraySpec, LayerArraySpec};
use crate::pure::array_setup::checked_sum;
use crate::pure::assemble::{array_error, array_plan, build_layer_array};
use crate::pure::conv1d::{dilated_error, Conv1D};
use crate::pure::layer_array::{ArrayModel, LayerArray};
use crate::pure::mat::Mat;
use crate::pure::net::{
    condition_model, head_given, net_reach, stack_models, stacks_reach, stacks_wf, NetModel,
    WaveNet,
};
use crate::pure::nn::{mismatch_text, oversize_message, oversize_text, underflow_text, Weights};
use crate::pure::plan::{
    array_count, array_from, head_count, head_from, head_inputs, head_outputs, ArrayPlan, HeadPlan,
};
use crate::pure::post_head::{given, PostHead};
use crate::text::{decimal, push_decimal, with_number};
use vstd::prelude::*;
use vstd::string::*;

verus! {

// The head ===================================================================

/// What a configuration says of the head after the stacks.
pub struct HeadSpec<S> {
    /// Channels read.
    pub in_channels: usize,
    /// Channels between the convolutions.
    pub channels: usize,
    /// Channels written.
    pub out_channels: usize,
    /// Taps of each convolution.
    pub kernel_sizes: Vec<usize>,
    /// The activation before each convolution.
    pub activation: Activation<S>,
}

impl<S: Scalar> HeadSpec<S> {
    /// The shape of the head.
    pub open spec fn plan(&self) -> HeadPlan<S> {
        HeadPlan {
            inputs: self.in_channels as nat,
            channels: self.channels as nat,
            outputs: self.out_channels as nat,
            kernels: Seq::new(self.kernel_sizes@.len(), |i: int| self.kernel_sizes@[i] as nat),
            act: self.activation.model(),
        }
    }
}

/// The shape of a head, where there is one.
pub open spec fn head_plan<S: Scalar>(head: Option<&HeadSpec<S>>) -> Option<HeadPlan<S>> {
    match head {
        Some(h) => Some(h.plan()),
        None => None,
    }
}

/// Why the first `k` convolutions of a head cannot be made, where they cannot.
pub open spec fn head_error<S>(p: HeadPlan<S>, k: nat) -> Option<Seq<char>>
    decreases k,
{
    if k == 0 {
        None
    } else {
        match head_error(p, (k - 1) as nat) {
            Some(e) => Some(e),
            None => dilated_error(
                head_inputs(p, k - 1),
                head_outputs(p, k - 1),
                p.kernels[k - 1],
                1,
                1,
            ),
        }
    }
}

/// The convolutions after one that cannot be made do not matter.
proof fn lemma_head_stops<S>(p: HeadPlan<S>, j: nat, k: nat)
    requires
        j <= k,
        head_error(p, j) is Some,
    ensures
        head_error(p, k) == head_error(p, j),
    decreases k - j,
{
    if j < k {
        lemma_head_stops(p, j, (k - 1) as nat);
    }
}

/// Make the head, without weights.
fn build_head<S: Scalar>(hs: &HeadSpec<S>) -> (r: Result<PostHead<S>, String>)
    requires
        lawful::<S>(),
        hs.kernel_sizes@.len() > 0,
    ensures
        match r {
            Ok(h) => {
                &&& head_error(hs.plan(), hs.kernel_sizes@.len()) is None
                &&& h.planned(hs.plan())
            },
            Err(e) => head_error(hs.plan(), hs.kernel_sizes@.len()) == Some(e@),
        },
{
    let ghost p = hs.plan();
    let n = hs.kernel_sizes.len();
    let mut convs: Vec<Conv1D<S>> = Vec::new();
    let mut activations: Vec<Activation<S>> = Vec::new();
    let mut cin = hs.in_channels;
    let mut i: usize = 0;
    while i < n
        invariant
            lawful::<S>(),
            n == hs.kernel_sizes@.len(),
            p == hs.plan(),
            i <= n,
            convs@.len() == i,
            activations@.len() == i,
            i < n ==> cin == head_inputs(p, i as int),
            head_error(p, i as nat) is None,
            forall|j: int|
                0 <= j < i ==> {
                    &&& (#[trigger] convs@[j]).wf()
                    &&& convs@[j].dilation == 1
                    &&& convs@[j].in_ch == head_inputs(p, j)
                    &&& convs@[j].out_ch == head_outputs(p, j)
                    &&& convs@[j].weight@.len() == p.kernels[j]
                    &&& convs@[j].biased
                    &&& convs@[j].groups == 1
                },
            forall|j: int| 0 <= j < i ==> (#[trigger] activations@[j]).model() == p.act,
        decreases n - i,
    {
        let cout = if i + 1 == n {
            hs.out_channels
        } else {
            hs.channels
        };
        activations.push(hs.activation.duplicate());
        match Conv1D::new(cin, cout, hs.kernel_sizes[i], true, 1, 1) {
            Ok(c) => convs.push(c),
            Err(e) => {
                proof {
                    lemma_head_stops(p, (i + 1) as nat, n as nat);
                }
                return Err(e);
            },
        }
        cin = cout;
        i += 1;
    }
    let h = PostHead {
        convs,
        activations,
        in_channels: hs.in_channels,
        scratch: Mat::new(hs.in_channels, 0),
    };
    assert forall|j: int| 0 <= j < n implies #[trigger] given(h.convs@, h.in_channels, j)
        == h.convs@[j].in_ch by {
        if j > 0 {
            assert(h.convs@[j - 1].out_ch == head_outputs(p, j - 1));
        }
    }
    Ok(h)
}

// The stacks =================================================================

/// The complaint about a head that stack number `idx` cannot start from.
pub open spec fn chain_text(idx: int, prev: nat, rows: nat) -> Seq<char> {
    ctx(
        idx,
        "head chaining size mismatch: previous head_size "@ + decimal(prev)
            + " vs head accumulator "@ + decimal(rows),
    )
}

/// Why the first `k` stacks cannot be made, where they cannot.
pub open spec fn stacks_error<S>(arrays: Seq<ArraySpec<S>>, k: nat) -> Option<Seq<char>>
    decreases k,
{
    if k == 0 {
        None
    } else {
        match stacks_error(arrays, (k - 1) as nat) {
            Some(e) => Some(e),
            None => if k > 1 && arrays[k - 2].head_size != head_rows(arrays[k - 1]) {
                Some(
                    chain_text(
                        k - 1,
                        arrays[k - 2].head_size as nat,
                        head_rows(arrays[k - 1]) as nat,
                    ),
                )
            } else {
                array_error(array_plan(arrays[k - 1]))
            },
        }
    }
}

/// The stacks after one that cannot be made do not matter.
proof fn lemma_stacks_stop<S>(arrays: Seq<ArraySpec<S>>, j: nat, k: nat)
    requires
        j <= k,
        stacks_error(arrays, j) is Some,
    ensures
        stacks_error(arrays, k) == stacks_error(arrays, j),
    decreases k - j,
{
    if j < k {
        lemma_stacks_stop(arrays, j, (k - 1) as nat);
    }
}

/// The contents of the configurations of stacks.
pub open spec fn specs<S: Scalar>(list: Seq<LayerArraySpec<S>>) -> Seq<ArraySpec<S>> {
    Seq::new(list.len(), |i: int| list[i].model())
}

/// The shapes of stacks.
pub open spec fn array_plans<S>(arrays: Seq<ArraySpec<S>>) -> Seq<ArrayPlan<S>> {
    Seq::new(arrays.len(), |i: int| array_plan(arrays[i]))
}

/// Every configuration is sound.
pub open spec fn specs_wf<S: Scalar>(list: Seq<LayerArraySpec<S>>) -> bool {
    forall|i: int| 0 <= i < list.len() ==> array_spec_wf((#[trigger] list[i]).model())
}

/// A stack has the shape that was asked for.
#[verifier::opaque]
spec fn array_made<S: Scalar>(la: LayerArray<S>, p: ArrayPlan<S>) -> bool {
    &&& la.wf()
    &&& la.standard_bias()
    &&& la.plan() == p
}

/// Every stack has the shape that was asked for.
spec fn arrays_made<S: Scalar>(list: Seq<LayerArray<S>>, plans: Seq<ArrayPlan<S>>) -> bool {
    forall|i: int| 0 <= i < list.len() ==> array_made(#[trigger] list[i], plans[i])
}

fn chain_message(idx: usize, prev: usize, rows: usize) -> (r: String)
    ensures
        r@ == chain_text(idx as int, prev as nat, rows as nat),
{
    let mut m = with_number(
        "head chaining size mismatch: previous head_size ",
        prev,
        " vs head accumulator ",
    );
    push_decimal(&mut m, rows);
    in_array(idx, m.as_str())
}

/// Make all stacks, without weights.
fn build_stacks<S: Scalar>(list: &Vec<LayerArraySpec<S>>) -> (r: Result<
    Vec<LayerArray<S>>,
    String,
>)
    requires
        lawful::<S>(),
        specs_wf(list@),
    ensures
        match r {
            Ok(v) => {
                &&& stacks_error(specs(list@), list@.len()) is None
                &&& v@.len() == list@.len()
                &&& arrays_made(v@, array_plans(specs(list@)))
            },
            Err(e) => stacks_error(specs(list@), list@.len()) == Some(e@),
        },
{
    let ghost arrays = specs(list@);
    let ghost plans = array_plans(arrays);
    let mut out: Vec<LayerArray<S>> = Vec::new();
    let mut i: usize = 0;
    while i < list.len()
        invariant
            lawful::<S>(),
            specs_wf(list@),
            i <= list@.len(),
            arrays == specs(list@),
            plans == array_plans(arrays),
            out@.len() == i,
            stacks_error(arrays, i as nat) is None,
            arrays_made(out@, plans),
        decreases list@.len() - i,
    {
        let ghost k = (i + 1) as nat;
        assert(arrays[i as int] == list@[i as int].model());
        if i > 0 {
            assert(arrays[i - 1] == list@[i - 1].model());
            let prev = list[i - 1].head_size;
            let rows = list[i].head_output_size();
            if prev != rows {
                proof {
                    lemma_stacks_stop(arrays, k, list@.len());
                }
                return Err(chain_message(i, prev, rows));
            }
        }
        match build_layer_array(&list[i]) {
            Ok(la) => {
                assert(array_made(la, plans[i as int])) by {
                    reveal(array_made);
                }
                out.push(la);
            },
            Err(e) => {
                proof {
                    lemma_stacks_stop(arrays, k, list@.len());
                }
                return Err(e);
            },
        }
        i += 1;
    }
    Ok(out)
}

/// How many weights the first `k` stacks read.
pub open spec fn stacks_start<S>(plans: Seq<ArrayPlan<S>>, k: nat) -> nat
    decreases k,
{
    if k == 0 {
        0
    } else {
        stacks_start(plans, (k - 1) as nat) + array_count(plans[k - 1])
    }
}

/// Stacks start one after the other.
pub proof fn lemma_stacks_start<S>(plans: Seq<ArrayPlan<S>>, j: nat, k: nat)
    requires
        j <= k,
    ensures
        stacks_start(plans, j) <= stacks_start(plans, k),
    decreases k - j,
{
    if j < k {
        lemma_stacks_start(plans, j, (k - 1) as nat);
    }
}

/// The stacks that a list of weights describes.
pub open spec fn stacks_from<S: Scalar>(plans: Seq<ArrayPlan<S>>, data: Seq<S>) -> Seq<
    ArrayModel<S>,
> {
    Seq::new(
        plans.len(),
        |i: int| array_from(plans[i], data, stacks_start(plans, i as nat) as int),
    )
}

/// Take the weights of all stacks from a list.
fn load_stacks<S: Scalar>(
    arrays: &mut Vec<LayerArray<S>>,
    w: &mut Weights<S>,
    Ghost(plans): Ghost<Seq<ArrayPlan<S>>>,
) -> (r: Result<(), String>)
    requires
        lawful::<S>(),
        plans.len() == old(arrays)@.len(),
        arrays_made(old(arrays)@, plans),
        old(w).wf(),
        old(w).pos == 0,
    ensures
        final(arrays)@.len() == old(arrays)@.len(),
        arrays_made(final(arrays)@, plans),
        final(w).wf(),
        final(w).data == old(w).data,
        r is Ok <==> stacks_start(plans, plans.len()) <= old(w).data@.len(),
        r is Ok ==> {
            &&& final(w).pos == stacks_start(plans, plans.len())
            &&& stack_models(final(arrays)@) == stacks_from(plans, old(w).data@)
        },
        r matches Err(e) ==> e@ == underflow_text(old(w).data@.len()),
{
    let ghost data = w.data@;
    let mut i: usize = 0;
    while i < arrays.len()
        invariant
            lawful::<S>(),
            i <= arrays@.len(),
            plans.len() == arrays@.len(),
            plans.len() == old(arrays)@.len(),
            arrays_made(arrays@, plans),
            w.wf(),
            w.data == old(w).data,
            w.data@ == data,
            w.pos == stacks_start(plans, i as nat),
            forall|j: int|
                0 <= j < i ==> (#[trigger] arrays@[j]).model() == stacks_from(plans, data)[j],
        decreases arrays@.len() - i,
    {
        let ghost was = arrays@;
        assert(array_made(was[i as int], plans[i as int]));
        proof {
            reveal(array_made);
            lemma_stacks_start(plans, (i + 1) as nat, plans.len());
        }
        let loaded = arrays[i].set_weights(w);
        proof {
            assert forall|j: int| 0 <= j < plans.len() implies array_made(
                #[trigger] arrays@[j],
                plans[j],
            ) by {
                if j != i {
                    assert(arrays@[j] == was[j]);
                }
            }
        }
        if let Err(e) = loaded {
            return Err(e);
        }
        i += 1;
    }
    assert(stack_models(arrays@) =~= stacks_from(plans, data));
    Ok(())
}

/// Stacks that were asked for fit each other.
proof fn lemma_arrays_made<S: Scalar>(list: Seq<LayerArray<S>>, arrays: Seq<ArraySpec<S>>, k: nat)
    requires
        k == list.len(),
        list.len() == arrays.len(),
        arrays_made(list, array_plans(arrays)),
        stacks_error(arrays, k) is None,
    ensures
        stacks_wf(list),
        forall|i: int|
            0 <= i < list.len() ==> (#[trigger] list[i]).head_rechannel.out_ch
                == arrays[i].head_size,
{
    assert forall|i: int| 0 <= i < list.len() implies {
        &&& (#[trigger] list[i]).wf()
        &&& list[i].head_rechannel.out_ch == arrays[i].head_size
        &&& list[i].head_output_size == head_rows(arrays[i])
    } by {
        assert(array_made(list[i], array_plans(arrays)[i]));
        reveal(array_made);
        assert(list[i].plan().head_size == array_plan(arrays[i]).head_size);
        assert(list[i].plan().head_rows == array_plan(arrays[i]).head_rows);
    }
    assert forall|i: int| 0 < i < list.len() implies #[trigger] head_given(list, i)
        == list[i].head_output_size by {
        lemma_chained(arrays, k, i);
    }
}

/// In stacks that can be made, each head has the channels that the next stack
/// starts from.
proof fn lemma_chained<S>(arrays: Seq<ArraySpec<S>>, k: nat, i: int)
    requires
        0 < i < k,
        stacks_error(arrays, k) is None,
    ensures
        arrays[i - 1].head_size == head_rows(arrays[i]),
    decreases k,
{
    if i < k - 1 {
        lemma_chained(arrays, (k - 1) as nat, i);
    }
}

// The network ================================================================

/// The complaint about a condition that has other channels than the input.
pub open spec fn inputs_text(inputs: nat, other: nat) -> Seq<char> {
    "input channels of WaveNet ("@ + decimal(inputs)
        + ") don't match input channels of condition DSP ("@ + decimal(other) + ")"@
}

/// The complaint about a stack that reads other channels than the condition
/// has.
pub open spec fn condition_text(idx: nat, size: nat, other: nat) -> Seq<char> {
    "condition_size of layer array "@ + decimal(idx) + " ("@ + decimal(size)
        + ") doesn't match output channels of condition DSP ("@ + decimal(other) + ")"@
}

/// Why the stacks from number `i` on cannot read a condition with these
/// channels, where they cannot.
pub open spec fn condition_error<S>(arrays: Seq<ArraySpec<S>>, outputs: nat, i: nat) -> Option<
    Seq<char>,
>
    decreases arrays.len() - i,
{
    if i < arrays.len() {
        if arrays[i as int].condition_size != outputs {
            Some(condition_text(i, arrays[i as int].condition_size as nat, outputs))
        } else {
            condition_error(arrays, outputs, i + 1)
        }
    } else {
        None
    }
}

/// Why a network cannot make the condition, where it cannot.
pub open spec fn wiring_error<S>(
    inputs: nat,
    arrays: Seq<ArraySpec<S>>,
    condition: Option<NetModel<S>>,
) -> Option<Seq<char>> {
    match condition {
        Some(cd) => if cd.inputs != inputs {
            Some(inputs_text(inputs, cd.inputs))
        } else {
            condition_error(arrays, cd.outputs, 0)
        },
        None => None,
    }
}

/// How many weights a network reads, those of its condition not counted.
pub open spec fn net_count<S>(arrays: Seq<ArraySpec<S>>, head: Option<HeadPlan<S>>) -> nat {
    stacks_start(array_plans(arrays), arrays.len()) + (match head {
        Some(h) => head_count(h),
        None => 0,
    }) + 1
}

/// The network that a list of weights describes.
pub open spec fn net_from<S: Scalar>(
    inputs: nat,
    arrays: Seq<ArraySpec<S>>,
    head: Option<HeadPlan<S>>,
    condition: Option<NetModel<S>>,
    data: Seq<S>,
) -> NetModel<S> {
    let plans = array_plans(arrays);
    let start = stacks_start(plans, plans.len()) as int;
    NetModel {
        arrays: stacks_from(plans, data),
        scale: data[net_count(arrays, head) - 1],
        head: match head {
            Some(h) => Some(head_from(h, data, start)),
            None => None,
        },
        condition: match condition {
            Some(cd) => Some(Box::new(cd)),
            None => None,
        },
        inputs,
        outputs: match head {
            Some(h) => h.outputs,
            None => arrays.last().head_size as nat,
        },
    }
}

/// The network of a configuration and a list of weights.
pub open spec fn net_of<S: Scalar>(
    inputs: nat,
    arrays: Seq<ArraySpec<S>>,
    head: Option<HeadPlan<S>>,
    condition: Option<NetModel<S>>,
    data: Seq<S>,
) -> Result<NetModel<S>, Seq<char>> {
    match wiring_error(inputs, arrays, condition) {
        Some(e) => Err(e),
        None => match stacks_error(arrays, arrays.len()) {
            Some(e) => Err(e),
            None => match match head {
                Some(h) => head_error(h, h.kernels.len()),
                None => None,
            } {
                Some(e) => Err(e),
                None => if net_count(arrays, head) > data.len() {
                    Err(underflow_text(data.len()))
                } else if net_count(arrays, head) < data.len() {
                    Err(mismatch_text(net_count(arrays, head), data.len()))
                } else {
                    let m = net_from(inputs, arrays, head, condition, data);
                    if net_reach(m) > usize::MAX {
                        Err(oversize_text())
                    } else {
                        Ok(m)
                    }
                },
            },
        },
    }
}

/// Check that a network can make the condition.
fn check_wiring<S: Scalar>(
    inputs: usize,
    list: &Vec<LayerArraySpec<S>>,
    condition: &Option<Box<WaveNet<S>>>,
) -> (r: Result<(), String>)
    ensures
        ({
            let error = wiring_error(
                inputs as nat,
                specs(list@),
                condition_model(*condition),
            );
            match r {
                Ok(()) => error is None,
                Err(e) => error == Some(e@),
            }
        }),
{
    match condition {
        Some(cd) => {
            if cd.in_channels() != inputs {
                let mut e = with_number(
                    "input channels of WaveNet (",
                    inputs,
                    ") don't match input channels of condition DSP (",
                );
                push_decimal(&mut e, cd.in_channels());
                e.append(")");
                return Err(e);
            }
            let ghost arrays = specs(list@);
            let outputs = cd.out_channels();
            let mut i: usize = 0;
            while i < list.len()
                invariant
                    i <= list@.len(),
                    arrays == specs(list@),
                    wiring_error(inputs as nat, arrays, condition_model(*condition))
                        == condition_error(
                        arrays,
                        outputs as nat,
                        i as nat,
                    ),
                decreases list@.len() - i,
            {
                assert(arrays[i as int] == list@[i as int].model());
                if list[i].condition_size != outputs {
                    let mut e = with_number("condition_size of layer array ", i, " (");
                    push_decimal(&mut e, list[i].condition_size);
                    e.append(") doesn't match output channels of condition DSP (");
                    push_decimal(&mut e, outputs);
                    e.append(")");
                    return Err(e);
                }
                i += 1;
            }
            Ok(())
        },
        None => Ok(()),
    }
}

/// How many frames the stacks look back, where that can be counted.
fn count_reach<S: Scalar>(arrays: &Vec<LayerArray<S>>) -> (r: Option<usize>)
    requires
        stacks_wf(arrays@),
    ensures
        match r {
            Some(v) => v == stacks_reach(stack_models(arrays@)),
            None => stacks_reach(stack_models(arrays@)) > usize::MAX,
        },
        stacks_reach(stack_models(arrays@)) >= 0,
{
    let ghost models = stack_models(arrays@);
    let mut total: Option<usize> = Some(0);
    let mut i: usize = 0;
    while i < arrays.len()
        invariant
            stacks_wf(arrays@),
            i <= arrays@.len(),
            models == stack_models(arrays@),
            stacks_reach(models.take(i as int)) >= 0,
            match total {
                Some(v) => v == stacks_reach(models.take(i as int)),
                None => stacks_reach(models.take(i as int)) > usize::MAX,
            },
        decreases arrays@.len() - i,
    {
        assert(arrays@[i as int].wf());
        total = checked_sum(total, arrays[i].receptive_field());
        proof {
            let part = models.take(i + 1);
            assert(part.drop_last() =~= models.take(i as int));
            assert(part.last() == arrays@[i as int].model());
        }
        i += 1;
    }
    assert(models.take(i as int) =~= models);
    total
}

/// Build a network from its configuration and its weights: those of the
/// stacks, of the head, and the scale.
pub fn build<S: Scalar>(
    in_channels: usize,
    list: &Vec<LayerArraySpec<S>>,
    head_spec: Option<&HeadSpec<S>>,
    condition_dsp: Option<Box<WaveNet<S>>>,
    weights: &[S],
) -> (r: Result<WaveNet<S>, String>)
    requires
        lawful::<S>(),
        list@.len() > 0,
        specs_wf(list@),
        head_spec matches Some(h) ==> {
            &&& h.kernel_sizes@.len() > 0
            &&& h.in_channels == list@.last().head_size
        },
        condition_dsp matches Some(cd) ==> cd.built(),
    ensures
        ({
            let want = net_of(
                in_channels as nat,
                specs(list@),
                head_plan(head_spec),
                condition_model(condition_dsp),
                weights@,
            );
            match r {
                Ok(net) => net.built() && want == Ok::<NetModel<S>, Seq<char>>(net.model()),
                Err(e) => want == Err::<NetModel<S>, Seq<char>>(e@),
            }
        }),
{
    let ghost arrays = specs(list@);
    let ghost plans = array_plans(arrays);
    let ghost head = head_plan(head_spec);
    if let Err(e) = check_wiring(in_channels, list, &condition_dsp) {
        return Err(e);
    }
    let mut layer_arrays = match build_stacks(list) {
        Ok(v) => v,
        Err(e) => {
            return Err(e);
        },
    };
    let mut post_head: Option<PostHead<S>> = None;
    if let Some(hs) = head_spec {
        match build_head(hs) {
            Ok(h) => {
                post_head = Some(h);
            },
            Err(e) => {
                return Err(e);
            },
        }
    }
    let out_channels = match head_spec {
        Some(hs) => hs.out_channels,
        None => list[list.len() - 1].head_size,
    };
    let mut w = Weights::new(weights);
    if let Err(e) = load_stacks(&mut layer_arrays, &mut w, Ghost(plans)) {
        return Err(e);
    }
    if let Some(h) = &mut post_head {
        if let Err(e) = h.set_weights(&mut w, Ghost(head->0)) {
            return Err(e);
        }
    }
    let scale = match w.next() {
        Ok(v) => v,
        Err(e) => {
            return Err(e);
        },
    };
    if let Err(e) = w.finish() {
        return Err(e);
    }
    proof {
        lemma_arrays_made(layer_arrays@, arrays, arrays.len());
    }
    let mut prewarm: Option<usize> = match &condition_dsp {
        Some(cd) => Some(cd.prewarm_samples()),
        None => Some(1),
    };
    prewarm = checked_sum(prewarm, count_reach(&layer_arrays));
    if let Some(h) = &post_head {
        prewarm = match h.receptive_field() {
            Some(v) => checked_sum(prewarm, Some(v - 1)),
            None => None,
        };
    }
    let net = WaveNet {
        layer_arrays,
        head_scale: scale,
        post_head,
        condition_dsp,
        in_channels,
        out_channels,
        condition_input: Mat::new(in_channels, 0),
        output: Mat::new(out_channels, 0),
        prewarm_samples: match prewarm {
            Some(v) => v,
            None => 0,
        },
        max_frames: 0,
    };
    if prewarm.is_none() {
        return Err(oversize_message());
    }
    Ok(net)
}

} // verus!
