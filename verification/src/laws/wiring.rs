//! What the parts of a network hear of each other.

use crate::num::Scalar;
use crate::pure::activations::{activated, Act};
use crate::pure::conv1d::{dilated_block, rolled};
use crate::pure::dsp::{dsp_inputs, dsp_outputs, dsp_reach, dsp_rest, dsp_run, DspModel, DspState};
use crate::pure::layer::layer_run;
use crate::pure::layer_array::{
    array_rest, array_run, head_start, stack_head, stack_input, stack_run, ArrayModel, ArrayRun,
    ArrayState,
};
use crate::pure::lstm::{lstm_after, lstm_reach, lstm_rest, lstm_run, CellState, LstmModel};
use crate::pure::net::{net_reach, net_rest, net_run, scaled, stacks_run, NetModel, NetState};
use crate::pure::nn::{affine_block, mac};
use crate::pure::post_head::{head_input, head_output, head_rolled, head_shaped, HeadModel};
use crate::pure::slim::SlimModel;
use crate::pure::wavenet::mono_block;
use vstd::prelude::*;

verus! {

// Stacks =====================================================================

/// The blocks that pass through a stack: `inputs[i]` goes into layer `i`, and
/// `sums[i]` has been summed up for the head before it.
pub open spec fn passes_through<S: Scalar>(
    m: ArrayModel<S>,
    st: ArrayState<S>,
    c: Seq<Seq<S>>,
    n: nat,
    inputs: Seq<Seq<Seq<S>>>,
    sums: Seq<Seq<Seq<S>>>,
) -> bool {
    &&& inputs.len() == m.layers.len() + 1
    &&& sums.len() == m.layers.len() + 1
    &&& forall|i: int|
        0 <= i < m.layers.len() ==> {
            let run = #[trigger] layer_run(m.layers[i], st.layers[i], inputs[i], c, n);
            &&& inputs[i + 1] == run.next
            &&& is_sum(sums[i], run.skip, sums[i + 1])
        }
}

/// A block is the sum of two others, channel by channel.
pub open spec fn is_sum<S: Scalar>(
    a: Seq<Seq<S>>,
    b: Seq<Seq<S>>,
    sum: Seq<Seq<S>>,
) -> bool {
    &&& sum.len() == a.len()
    &&& forall|f: int, r: int|
        0 <= f < a.len() && 0 <= r < a[f].len() ==> #[trigger] sum[f][r] == a[f][r].add_spec(
            b[f][r],
        )
    &&& forall|f: int| 0 <= f < a.len() ==> (#[trigger] sum[f]).len() == a[f].len()
}

/// What the sum for the head starts from: zeros, or what the head of the stack
/// before has made.
pub open spec fn is_start<S: Scalar>(
    rows: nat,
    before: Option<Seq<Seq<S>>>,
    n: nat,
    start: Seq<Seq<S>>,
) -> bool {
    &&& start.len() == n
    &&& forall|f: int| 0 <= f < n ==> (#[trigger] start[f]).len() == rows
    &&& forall|f: int, r: int|
        0 <= f < n && 0 <= r < rows ==> #[trigger] start[f][r] == match before {
            Some(b) => b[f][r],
            None => S::zero_spec(),
        }
}

/// The blocks of a stack pass through all layers in turn: each layer hears what
/// the one before gives on, the first what the stack makes of its input; all skip
/// outputs are summed up in the same order, and the head convolves the sum.
pub proof fn stacks_pass_blocks_through<S: Scalar>(
    m: ArrayModel<S>,
    st: ArrayState<S>,
    x: Seq<Seq<S>>,
    c: Seq<Seq<S>>,
    before: Option<Seq<Seq<S>>>,
    n: nat,
)
    requires
        before matches Some(b) ==> (forall|f: int|
            0 <= f < n ==> m.head.inputs <= (#[trigger] b[f]).len()),
    ensures
        exists|inputs: Seq<Seq<Seq<S>>>, sums: Seq<Seq<Seq<S>>>| #[trigger]
            passes_through(m, st, c, n, inputs, sums) && is_rechanneled(m, x, n, inputs[0])
                && is_start(m.head.inputs, before, n, sums[0]) && is_stack_run(
                m,
                st,
                c,
                n,
                inputs,
                sums,
                array_run(m, st, x, c, before, n),
            ),
{
    let k = m.layers.len();
    let first = affine_block(m.rechannel, x, n);
    let start = head_start(m.head.inputs, before, n);
    let inputs = Seq::new(k + 1, |i: int| stack_input(m.layers, st.layers, first, c, n, i as nat));
    let sums = Seq::new(
        k + 1,
        |i: int| stack_head(m.layers, st.layers, first, c, n, start, i as nat),
    );
    assert forall|i: int| 0 <= i < k implies {
        let run = #[trigger] layer_run(m.layers[i], st.layers[i], inputs[i], c, n);
        &&& inputs[i + 1] == run.next
        &&& is_sum(sums[i], run.skip, sums[i + 1])
    } by {
        assert(stack_run(m.layers, st.layers, first, c, n, i) == layer_run(
            m.layers[i],
            st.layers[i],
            inputs[i],
            c,
            n,
        ));
    }
    let run = array_run(m, st, x, c, before, n);
    assert forall|i: int| 0 <= i < k implies #[trigger] run.state.layers[i] == layer_run(
        m.layers[i],
        st.layers[i],
        inputs[i],
        c,
        n,
    ).history by {}
    assert(is_start(m.head.inputs, before, n, sums[0])) by {
        if let Some(b) = before {
            assert forall|f: int| 0 <= f < n implies (#[trigger] start[f]).len() == m.head.inputs by {
                assert(m.head.inputs <= b[f].len());
            }
        }
    }
    assert(is_rechanneled(m, x, n, inputs[0]));
    assert(passes_through(m, st, c, n, inputs, sums));
    assert(is_stack_run(m, st, c, n, inputs, sums, run));
}

/// The first layer hears the weighted sums of the channels of the input.
pub open spec fn is_rechanneled<S: Scalar>(
    m: ArrayModel<S>,
    x: Seq<Seq<S>>,
    n: nat,
    y: Seq<Seq<S>>,
) -> bool {
    &&& y.len() == n
    &&& forall|f: int, o: int|
        0 <= f < n && 0 <= o < m.rechannel.outputs ==> #[trigger] y[f][o] == mac(
            m.rechannel.offset[o],
            m.rechannel.weight[o],
            x[f],
            m.rechannel.inputs,
        )
}

/// What a stack gives and remembers, from the blocks that pass through it.
pub open spec fn is_stack_run<S: Scalar>(
    m: ArrayModel<S>,
    st: ArrayState<S>,
    c: Seq<Seq<S>>,
    n: nat,
    inputs: Seq<Seq<Seq<S>>>,
    sums: Seq<Seq<Seq<S>>>,
    run: ArrayRun<S>,
) -> bool {
    let k = m.layers.len() as int;
    &&& run.next == inputs[k]
    &&& run.head == dilated_block(m.head, st.head, sums[k])
    &&& run.state.head == rolled(st.head, sums[k])
    &&& run.state.layers.len() == k
    &&& forall|i: int|
        0 <= i < k ==> #[trigger] run.state.layers[i] == layer_run(
            m.layers[i],
            st.layers[i],
            inputs[i],
            c,
            n,
        ).history
}

// Networks ===================================================================

/// The condition of a network: what the network for it makes of the same input,
/// or the input itself.
pub open spec fn is_condition<S: Scalar>(
    m: NetModel<S>,
    st: NetState<S>,
    x: Seq<Seq<S>>,
    c: Seq<Seq<S>>,
) -> bool {
    match m.condition {
        Some(cd) => c == net_run(*cd, *st.condition->0, x).output,
        None => c == x,
    }
}

/// The runs of the stacks of a network: the first reads the input, each other
/// what the layers of the one before give on, and adds to its head.
pub open spec fn in_turn<S: Scalar>(
    m: NetModel<S>,
    st: NetState<S>,
    x: Seq<Seq<S>>,
    c: Seq<Seq<S>>,
    runs: Seq<ArrayRun<S>>,
) -> bool {
    &&& runs.len() == m.arrays.len()
    &&& runs[0] == array_run(m.arrays[0], st.arrays[0], x, c, None, x.len())
    &&& forall|i: int|
        0 < i < runs.len() ==> #[trigger] runs[i] == array_run(
            m.arrays[i],
            st.arrays[i],
            runs[i - 1].next,
            c,
            Some(runs[i - 1].head),
            x.len(),
        )
}

/// A block is another with every number multiplied.
pub open spec fn is_scaled<S: Scalar>(scale: S, x: Seq<Seq<S>>, y: Seq<Seq<S>>) -> bool {
    &&& y.len() == x.len()
    &&& forall|f: int| 0 <= f < x.len() ==> (#[trigger] y[f]).len() == x[f].len()
    &&& forall|f: int, r: int|
        0 <= f < x.len() && 0 <= r < x[f].len() ==> #[trigger] y[f][r] == scale.mul_spec(x[f][r])
}

/// A network lets its stacks run in turn, multiplies what the head of the last
/// one makes, and gives that, or what the head after the stacks makes of it.
pub proof fn networks_run_their_stacks_in_turn<S: Scalar>(
    m: NetModel<S>,
    st: NetState<S>,
    x: Seq<Seq<S>>,
)
    requires
        m.arrays.len() > 0,
    ensures
        exists|c: Seq<Seq<S>>, runs: Seq<ArrayRun<S>>, level: Seq<Seq<S>>| #[trigger]
            is_net_run(m, st, x, c, runs, level),
{
    let c = match m.condition {
        Some(cd) => net_run(*cd, *st.condition->0, x).output,
        None => x,
    };
    let runs = Seq::new(
        m.arrays.len(),
        |i: int| stacks_run(m.arrays, st.arrays, x, c, x.len(), i as nat),
    );
    let level = scaled(m.scale, runs[m.arrays.len() - 1].head);
    let run = net_run(m, st, x);
    assert(in_turn(m, st, x, c, runs));
    assert forall|i: int| 0 <= i < runs.len() implies #[trigger] run.state.arrays[i]
        == runs[i].state by {}
    assert(is_scaled(m.scale, runs[m.arrays.len() - 1].head, level));
    assert(is_net_run(m, st, x, c, runs, level));
}

/// What a network gives and remembers, from its condition, the runs of its
/// stacks, and the level of the last one.
pub open spec fn is_net_run<S: Scalar>(
    m: NetModel<S>,
    st: NetState<S>,
    x: Seq<Seq<S>>,
    c: Seq<Seq<S>>,
    runs: Seq<ArrayRun<S>>,
    level: Seq<Seq<S>>,
) -> bool {
    let run = net_run(m, st, x);
    &&& is_condition(m, st, x, c)
    &&& in_turn(m, st, x, c, runs)
    &&& is_scaled(m.scale, runs[m.arrays.len() - 1].head, level)
    &&& m.head is None ==> run.output == level && run.state.head is None
    &&& m.head matches Some(h) ==> run.output == head_output(h, st.head->0, level)
        && run.state.head == Some(head_rolled(h, st.head->0, level))
    &&& run.state.arrays.len() == runs.len()
    &&& forall|i: int|
        0 <= i < runs.len() ==> #[trigger] run.state.arrays[i] == runs[i].state
    &&& m.condition matches Some(cd) ==> run.state.condition == Some(
        Box::new(net_run(*cd, *st.condition->0, x).state),
    )
}

// The head after the stacks ==================================================

/// A block is another, activated: numbers are counted through its frames.
pub open spec fn is_activated<S: Scalar>(
    a: Act<S>,
    x: Seq<Seq<S>>,
    y: Seq<Seq<S>>,
) -> bool {
    &&& y.len() == x.len()
    &&& forall|f: int| 0 <= f < x.len() ==> (#[trigger] y[f]).len() == x[f].len()
    &&& forall|f: int, r: int|
        0 <= f < x.len() && 0 <= r < x[f].len() ==> #[trigger] y[f][r] == activated(
            a,
            x[f][r],
            f * x[f].len() + r,
        )
}

/// Each stage of the head activates what the stage before has made, and convolves
/// it; the first stage reads the level, and the last one gives the output.
pub proof fn heads_run_their_stages_in_turn<S: Scalar>(
    m: HeadModel<S>,
    histories: Seq<Seq<Seq<S>>>,
    x: Seq<Seq<S>>,
)
    ensures
        exists|blocks: Seq<Seq<Seq<S>>>, active: Seq<Seq<Seq<S>>>| #[trigger]
            is_head_run(m, histories, x, blocks, active),
{
    let k = m.stages.len();
    let blocks = Seq::new(k + 1, |i: int| head_input(m, histories, x, i as nat));
    let active = Seq::new(k, |i: int| head_shaped(m, histories, x, i));
    assert forall|i: int| 0 <= i < k implies {
        &&& is_activated(m.stages[i].0, blocks[i], #[trigger] active[i])
        &&& blocks[i + 1] == dilated_block(m.stages[i].1, histories[i], active[i])
        &&& head_rolled(m, histories, x)[i] == rolled(histories[i], active[i])
    } by {}
    assert(is_head_run(m, histories, x, blocks, active));
}

/// The blocks that pass through the head.
pub open spec fn is_head_run<S: Scalar>(
    m: HeadModel<S>,
    histories: Seq<Seq<Seq<S>>>,
    x: Seq<Seq<S>>,
    blocks: Seq<Seq<Seq<S>>>,
    active: Seq<Seq<Seq<S>>>,
) -> bool {
    let k = m.stages.len();
    &&& blocks.len() == k + 1
    &&& active.len() == k
    &&& blocks[0] == x
    &&& head_output(m, histories, x) == blocks[k as int]
    &&& head_rolled(m, histories, x).len() == k
    &&& forall|i: int|
        0 <= i < k ==> {
            &&& is_activated(m.stages[i].0, blocks[i], #[trigger] active[i])
            &&& blocks[i + 1] == dilated_block(m.stages[i].1, histories[i], active[i])
            &&& head_rolled(m, histories, x)[i] == rolled(histories[i], active[i])
        }
}

// Models =====================================================================

/// A network hears a sample in its first channel, and silence in the others, and
/// is heard through its first channel.
pub proof fn networks_are_mono<S: Scalar>(
    m: NetModel<S>,
    st: NetState<S>,
    x: Seq<S::Wide>,
    f: int,
)
    requires
        0 <= f < x.len(),
        net_run(
            m,
            st,
            Seq::new(
                x.len(),
                |f: int|
                    Seq::new(
                        m.inputs,
                        |r: int|
                            if r == 0 {
                                S::narrow_spec(x[f])
                            } else {
                                S::zero_spec()
                            },
                    ),
            ),
        ).output.len() == x.len(),
    ensures
        ({
            let heard = Seq::new(
                x.len(),
                |f: int|
                    Seq::new(
                        m.inputs,
                        |r: int|
                            if r == 0 {
                                S::narrow_spec(x[f])
                            } else {
                                S::zero_spec()
                            },
                    ),
            );
            let run = net_run(m, st, heard);
            let given = dsp_run(DspModel::Net(m), DspState::Net(st), x);
            &&& given.output.len() == x.len()
            &&& given.output[f] == run.output[f][0].widen_spec()
            &&& given.state == DspState::<S>::Net(run.state)
        }),
{
    let heard = Seq::new(
        x.len(),
        |f: int|
            Seq::new(
                m.inputs,
                |r: int|
                    if r == 0 {
                        S::narrow_spec(x[f])
                    } else {
                        S::zero_spec()
                    },
            ),
    );
    assert forall|f: int| 0 <= f < x.len() implies #[trigger] heard[f]
        == mono_block::<S>(m.inputs, x)[f] by {
        assert(heard[f] =~= mono_block::<S>(m.inputs, x)[f]);
    }
    assert(heard =~= mono_block::<S>(m.inputs, x));
}

/// A network that can be reduced does what its current network does.
pub proof fn current_sizes_are_heard<S: Scalar>(
    sm: SlimModel<S>,
    channels: Seq<usize>,
    net: NetModel<S>,
    st: DspState<S>,
    x: Seq<S::Wide>,
)
    ensures
        ({
            let m = DspModel::Slim(sm, channels, net);
            &&& dsp_run(m, st, x) == dsp_run(DspModel::Net(net), st, x)
            &&& dsp_rest(m) == dsp_rest(DspModel::Net(net))
            &&& dsp_reach(m) == dsp_reach(DspModel::Net(net))
            &&& dsp_inputs(m) == net.inputs
            &&& dsp_outputs(m) == net.outputs
        }),
{
}

/// A container does what its selected model does.
pub proof fn selected_models_are_heard<S: Scalar>(
    subs: Seq<(S::Wide, DspModel<S>)>,
    k: nat,
    st: DspState<S>,
    x: Seq<S::Wide>,
)
    requires
        k < subs.len(),
    ensures
        ({
            let m = DspModel::Container(subs, k);
            let sub = subs[k as int].1;
            &&& dsp_run(m, st, x) == dsp_run(sub, st, x)
            &&& dsp_rest(m) == dsp_rest(sub)
            &&& dsp_reach(m) == dsp_reach(sub)
        }),
{
}

/// A network in rest has heard nothing but silence, for as long as it remembers.
pub proof fn rest_is_silence<S: Scalar>(m: NetModel<S>, i: int, l: int, k: int, r: int)
    requires
        0 <= i < m.arrays.len(),
        0 <= l < m.arrays[i].layers.len(),
        0 <= k < (m.arrays[i].layers[l].conv.weight.len() - 1) * m.arrays[i].layers[l].conv.dilation,
        0 <= r < m.arrays[i].layers[l].channels,
    ensures
        net_rest(m).arrays.len() == m.arrays.len(),
        net_rest(m).arrays[i].layers.len() == m.arrays[i].layers.len(),
        net_rest(m).arrays[i].layers[l].len() == (m.arrays[i].layers[l].conv.weight.len() - 1)
            * m.arrays[i].layers[l].conv.dilation,
        net_rest(m).arrays[i].layers[l][k][r] == S::zero_spec(),
        m.condition matches Some(cd) ==> net_rest(m).condition == Some(Box::new(net_rest(*cd))),
{
    assert(net_rest(m).arrays[i] == array_rest(m.arrays[i]));
}

/// The heads of a network in rest have heard nothing but silence either.
pub proof fn heads_rest_in_silence<S: Scalar>(m: NetModel<S>, i: int, k: int, r: int)
    requires
        0 <= i < m.arrays.len(),
        0 <= k < (m.arrays[i].head.weight.len() - 1) * m.arrays[i].head.dilation,
        0 <= r < m.arrays[i].head.inputs,
    ensures
        net_rest(m).arrays[i].head.len() == (m.arrays[i].head.weight.len() - 1)
            * m.arrays[i].head.dilation,
        net_rest(m).arrays[i].head[k][r] == S::zero_spec(),
        m.head is None ==> net_rest(m).head is None,
        m.condition is None ==> net_rest(m).condition is None,
{
    assert(net_rest(m).arrays[i] == array_rest(m.arrays[i]));
}

/// The stages of the head after the stacks rest in silence.
pub proof fn stages_rest_in_silence<S: Scalar>(m: NetModel<S>, h: HeadModel<S>, i: int, k: int, r: int)
    requires
        m.head == Some(h),
        0 <= i < h.stages.len(),
        0 <= k < (h.stages[i].1.weight.len() - 1) * h.stages[i].1.dilation,
        0 <= r < h.stages[i].1.inputs,
    ensures
        net_rest(m).head matches Some(st) && st.len() == h.stages.len() && st[i].len() == (
        h.stages[i].1.weight.len() - 1) * h.stages[i].1.dilation && st[i][k][r] == S::zero_spec(),
{
}

/// Networks and recurrent networks are run, rest and reach as models just as they
/// do alone.
pub proof fn models_are_what_they_hold<S: Scalar>(
    n: NetModel<S>,
    l: LstmModel<S>,
    st: Seq<CellState<S>>,
    x: Seq<S::Wide>,
)
    ensures
        dsp_run(DspModel::Lstm(l), DspState::Lstm(st), x).output == lstm_run(l, st, x),
        dsp_run(DspModel::Lstm(l), DspState::Lstm(st), x).state == DspState::<S>::Lstm(
            lstm_after::<S>(l.cells, st, x, x.len()),
        ),
        dsp_rest(DspModel::Lstm(l)) == DspState::<S>::Lstm(lstm_rest(l)),
        dsp_reach(DspModel::Lstm(l)) == lstm_reach(l.rate),
        dsp_inputs(DspModel::Lstm(l)) == l.inputs,
        dsp_outputs(DspModel::Lstm(l)) == l.outputs,
        dsp_rest(DspModel::Net(n)) == DspState::<S>::Net(net_rest(n)),
        dsp_reach(DspModel::Net(n)) == net_reach(n),
        dsp_inputs(DspModel::Net(n)) == n.inputs,
        dsp_outputs(DspModel::Net(n)) == n.outputs,
{
}

} // verus!
