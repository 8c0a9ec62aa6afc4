//! The network: stacks of layers, a head, and optionally a network that makes
//! the condition.

use crate::num::Scalar;
use crate::pure::layer::LayerModel;
use crate::pure::layer_array::{
    array_defined, array_fits, array_reach, array_reads, array_rest, array_run, array_total,
    head_start, stack_head, ArrayModel, ArrayRun, ArrayState, LayerArray,
};
use crate::pure::mat::Mat;
use crate::pure::nn::affine_block;
use crate::pure::post_head::{
    head_defined, head_fits, head_input, head_output, head_rest, head_rolled, head_total,
    stages_reach, HeadModel, PostHead,
};
use vstd::prelude::*;

verus! {

// The network as a mathematical map ==========================================

/// A network as a mathematical map.
pub struct NetModel<S> {
    /// The stacks of layers, in order.
    pub arrays: Seq<ArrayModel<S>>,
    /// What the output of the last stack is multiplied by.
    pub scale: S,
    /// The head after the stacks.
    pub head: Option<HeadModel<S>>,
    /// The network that makes the condition from the input.
    pub condition: Option<Box<NetModel<S>>>,
    /// Channels read.
    pub inputs: nat,
    /// Channels written.
    pub outputs: nat,
}

/// The frames that a network remembers.
pub struct NetState<S> {
    /// The histories of each stack.
    pub arrays: Seq<ArrayState<S>>,
    /// The histories of the head.
    pub head: Option<Seq<Seq<Seq<S>>>>,
    /// What the network that makes the condition remembers.
    pub condition: Option<Box<NetState<S>>>,
}

/// What a block leaves behind in a network.
pub struct NetRun<S> {
    /// The histories for the next block.
    pub state: NetState<S>,
    /// The output.
    pub output: Seq<Seq<S>>,
}

/// What stack `i` makes of the block. The first stack reads the input, each
/// other the layers and the head of the stack before.
pub open spec fn stacks_run<S: Scalar>(
    arrays: Seq<ArrayModel<S>>,
    states: Seq<ArrayState<S>>,
    x: Seq<Seq<S>>,
    c: Seq<Seq<S>>,
    n: nat,
    i: nat,
) -> ArrayRun<S>
    decreases i,
{
    if i == 0 {
        array_run(arrays[0], states[0], x, c, None, n)
    } else {
        let before = stacks_run(arrays, states, x, c, n, (i - 1) as nat);
        array_run(arrays[i as int], states[i as int], before.next, c, Some(before.head), n)
    }
}

/// A block with every number multiplied.
pub open spec fn scaled<S: Scalar>(scale: S, x: Seq<Seq<S>>) -> Seq<Seq<S>> {
    Seq::new(x.len(), |f: int| Seq::new(x[f].len(), |r: int| scale.mul_spec(x[f][r])))
}

/// What a network makes of a block.
pub open spec fn net_run<S: Scalar>(m: NetModel<S>, st: NetState<S>, x: Seq<Seq<S>>) -> NetRun<S>
    decreases m,
{
    let n = x.len();
    let inner = match m.condition {
        Some(cd) => Some(net_run(*cd, *st.condition->0, x)),
        None => None,
    };
    let c = match inner {
        Some(run) => run.output,
        None => x,
    };
    let last = stacks_run(m.arrays, st.arrays, x, c, n, (m.arrays.len() - 1) as nat).head;
    let level = scaled(m.scale, last);
    NetRun {
        state: NetState {
            arrays: Seq::new(
                m.arrays.len(),
                |i: int| stacks_run(m.arrays, st.arrays, x, c, n, i as nat).state,
            ),
            head: match m.head {
                Some(h) => Some(head_rolled(h, st.head->0, level)),
                None => None,
            },
            condition: match inner {
                Some(run) => Some(Box::new(run.state)),
                None => None,
            },
        },
        output: match m.head {
            Some(h) => head_output(h, st.head->0, level),
            None => level,
        },
    }
}

/// The histories of a network that has heard nothing.
pub open spec fn net_rest<S: Scalar>(m: NetModel<S>) -> NetState<S>
    decreases m,
{
    NetState {
        arrays: Seq::new(m.arrays.len(), |i: int| array_rest(m.arrays[i])),
        head: match m.head {
            Some(h) => Some(head_rest(h)),
            None => None,
        },
        condition: match m.condition {
            Some(cd) => Some(Box::new(net_rest(*cd))),
            None => None,
        },
    }
}

/// How many frames the stacks look back.
pub open spec fn stacks_reach<S>(arrays: Seq<ArrayModel<S>>) -> int
    decreases arrays.len(),
{
    if arrays.len() == 0 {
        0
    } else {
        stacks_reach(arrays.drop_last()) + array_reach(arrays.last())
    }
}

/// How many frames of silence bring a network to rest.
pub open spec fn net_reach<S>(m: NetModel<S>) -> int
    decreases m,
{
    (match m.condition {
        Some(cd) => net_reach(*cd),
        None => 1,
    }) + stacks_reach(m.arrays) + match m.head {
        Some(h) => stages_reach(h.stages),
        None => 0,
    }
}

/// The buffers of a network can be addressed.
pub open spec fn net_fits<S>(m: NetModel<S>, max: nat) -> bool
    decreases m,
{
    &&& max * m.inputs <= usize::MAX
    &&& max * m.outputs <= usize::MAX
    &&& forall|i: int| 0 <= i < m.arrays.len() ==> array_fits(#[trigger] m.arrays[i], max)
    &&& m.head matches Some(h) ==> head_fits(h, max)
    &&& m.condition matches Some(cd) ==> net_fits(*cd, max)
}

/// Channels of the condition.
pub open spec fn condition_rows<S>(m: NetModel<S>) -> nat {
    match m.condition {
        Some(cd) => cd.outputs,
        None => m.inputs,
    }
}

/// Channels that stack `i` is given.
pub open spec fn stack_rows<S>(m: NetModel<S>, i: int) -> nat {
    if i == 0 {
        m.inputs
    } else {
        m.arrays[i - 1].rechannel.outputs
    }
}

/// Every part of the network finds the channels that it reads.
pub open spec fn net_wired<S>(m: NetModel<S>) -> bool
    decreases m,
{
    &&& forall|i: int|
        0 <= i < m.arrays.len() ==> array_reads(
            m.arrays[i],
            #[trigger] stack_rows(m, i),
            condition_rows(m),
        )
    &&& forall|i: int|
        0 <= i < m.arrays.len() - 1 ==> (#[trigger] m.arrays[i]).layers.len() > 0
    &&& m.condition matches Some(cd) ==> net_wired(*cd)
}

/// Every activation of the network has a value everywhere.
pub open spec fn net_total<S>(m: NetModel<S>) -> bool
    decreases m,
{
    &&& forall|i: int| 0 <= i < m.arrays.len() ==> array_total(#[trigger] m.arrays[i])
    &&& m.head matches Some(h) ==> head_total(h)
    &&& m.condition matches Some(cd) ==> net_total(*cd)
}

/// The block that stack `i` reads.
pub open spec fn stacks_input<S: Scalar>(
    arrays: Seq<ArrayModel<S>>,
    states: Seq<ArrayState<S>>,
    x: Seq<Seq<S>>,
    c: Seq<Seq<S>>,
    n: nat,
    i: nat,
) -> Seq<Seq<S>> {
    if i == 0 {
        x
    } else {
        stacks_run(arrays, states, x, c, n, (i - 1) as nat).next
    }
}

/// Every activation of the stacks has a value at everything that a block brings
/// it.
#[verifier::opaque]
pub open spec fn stacks_defined<S: Scalar>(
    arrays: Seq<ArrayModel<S>>,
    states: Seq<ArrayState<S>>,
    x: Seq<Seq<S>>,
    c: Seq<Seq<S>>,
    n: nat,
) -> bool {
    forall|i: int|
        0 <= i < arrays.len() ==> array_defined(
            #[trigger] arrays[i],
            states[i],
            stacks_input(arrays, states, x, c, n, i as nat),
            c,
            n,
        )
}

/// Every activation of the network has a value at everything that a block
/// brings it.
pub open spec fn net_defined<S: Scalar>(m: NetModel<S>, st: NetState<S>, x: Seq<Seq<S>>) -> bool
    decreases m,
{
    let n = x.len();
    let c = match m.condition {
        Some(cd) => net_run(*cd, *st.condition->0, x).output,
        None => x,
    };
    let last = stacks_run(m.arrays, st.arrays, x, c, n, (m.arrays.len() - 1) as nat).head;
    &&& stacks_defined(m.arrays, st.arrays, x, c, n)
    &&& m.head matches Some(h) ==> head_defined(h, st.head->0, scaled(m.scale, last))
    &&& m.condition matches Some(cd) ==> net_defined(*cd, *st.condition->0, x)
}

/// Adding skip outputs keeps the number of frames.
proof fn lemma_stack_head_len<S: Scalar>(
    layers: Seq<LayerModel<S>>,
    histories: Seq<Seq<Seq<S>>>,
    x: Seq<Seq<S>>,
    c: Seq<Seq<S>>,
    n: nat,
    start: Seq<Seq<S>>,
    i: nat,
)
    ensures
        stack_head(layers, histories, x, c, n, start, i).len() == start.len(),
    decreases i,
{
    if i > 0 {
        lemma_stack_head_len(layers, histories, x, c, n, start, (i - 1) as nat);
    }
}

/// A stack makes one frame of each frame.
pub proof fn lemma_array_len<S: Scalar>(
    m: ArrayModel<S>,
    st: ArrayState<S>,
    x: Seq<Seq<S>>,
    c: Seq<Seq<S>>,
    h: Option<Seq<Seq<S>>>,
    n: nat,
)
    ensures
        array_run(m, st, x, c, h, n).head.len() == n,
{
    lemma_stack_head_len(
        m.layers,
        st.layers,
        affine_block(m.rechannel, x, n),
        c,
        n,
        head_start(m.head.inputs, h, n),
        m.layers.len(),
    );
}

/// The stacks make one frame of each frame.
pub proof fn lemma_stacks_len<S: Scalar>(
    arrays: Seq<ArrayModel<S>>,
    states: Seq<ArrayState<S>>,
    x: Seq<Seq<S>>,
    c: Seq<Seq<S>>,
    n: nat,
    i: nat,
)
    ensures
        stacks_run(arrays, states, x, c, n, i).head.len() == n,
{
    if i == 0 {
        lemma_array_len(arrays[0], states[0], x, c, None, n);
    } else {
        let before = stacks_run(arrays, states, x, c, n, (i - 1) as nat);
        lemma_array_len(
            arrays[i as int],
            states[i as int],
            before.next,
            c,
            Some(before.head),
            n,
        );
    }
}

/// The head makes one frame of each frame.
pub proof fn lemma_head_len<S: Scalar>(
    m: HeadModel<S>,
    histories: Seq<Seq<Seq<S>>>,
    x: Seq<Seq<S>>,
    i: nat,
)
    ensures
        head_input(m, histories, x, i).len() == x.len(),
    decreases i,
{
    if i > 0 {
        lemma_head_len(m, histories, x, (i - 1) as nat);
    }
}

/// A network makes one frame of each frame.
pub proof fn lemma_net_len<S: Scalar>(m: NetModel<S>, st: NetState<S>, x: Seq<Seq<S>>)
    ensures
        net_run(m, st, x).output.len() == x.len(),
{
    let c = match m.condition {
        Some(cd) => net_run(*cd, *st.condition->0, x).output,
        None => x,
    };
    let i = (m.arrays.len() - 1) as nat;
    lemma_stacks_len(m.arrays, st.arrays, x, c, x.len(), i);
    if let Some(h) = m.head {
        let last = stacks_run(m.arrays, st.arrays, x, c, x.len(), i).head;
        lemma_head_len(h, st.head->0, scaled(m.scale, last), h.stages.len());
    }
}

// The network with its buffers ===============================================

/// A network with its buffers.
pub struct WaveNet<S> {
    /// The stacks of layers, in order.
    pub layer_arrays: Vec<LayerArray<S>>,
    /// What the output of the last stack is multiplied by.
    pub head_scale: S,
    /// The head after the stacks.
    pub post_head: Option<PostHead<S>>,
    /// The network that makes the condition from the input.
    pub condition_dsp: Option<Box<WaveNet<S>>>,
    /// Channels read.
    pub in_channels: usize,
    /// Channels written.
    pub out_channels: usize,
    /// The input.
    pub condition_input: Mat<S>,
    /// The output.
    pub output: Mat<S>,
    /// How many frames of silence bring the network to rest.
    pub prewarm_samples: usize,
    /// The longest block there is room for.
    pub max_frames: usize,
}

/// Channels of the head that stack `i` starts from.
pub open spec fn head_given<S>(arrays: Seq<LayerArray<S>>, i: int) -> usize {
    arrays[i - 1].head_rechannel.out_ch
}

/// The stacks fit each other.
pub open spec fn stacks_wf<S: Scalar>(arrays: Seq<LayerArray<S>>) -> bool {
    &&& forall|i: int| 0 <= i < arrays.len() ==> (#[trigger] arrays[i]).wf()
    &&& forall|i: int|
        0 < i < arrays.len() ==> #[trigger] head_given(arrays, i) == arrays[i].head_output_size
}

/// The buffers of the stacks have room for blocks of this many frames.
pub open spec fn stacks_sized<S: Scalar>(arrays: Seq<LayerArray<S>>, max: nat) -> bool {
    forall|i: int| 0 <= i < arrays.len() ==> (#[trigger] arrays[i]).sized(max)
}

/// The maps of the stacks.
pub open spec fn stack_models<S: Scalar>(arrays: Seq<LayerArray<S>>) -> Seq<ArrayModel<S>> {
    Seq::new(arrays.len(), |i: int| arrays[i].model())
}

/// What the stacks remember.
pub open spec fn stack_states<S: Scalar>(arrays: Seq<LayerArray<S>>) -> Seq<ArrayState<S>> {
    Seq::new(arrays.len(), |i: int| arrays[i].state())
}

/// The map of a network that makes a condition, where there is one.
pub open spec fn condition_model<S: Scalar>(net: Option<Box<WaveNet<S>>>) -> Option<NetModel<S>> {
    match net {
        Some(cd) => Some(cd.model()),
        None => None,
    }
}

impl<S: Scalar> WaveNet<S> {
    /// The shapes agree.
    pub open spec fn wf(&self) -> bool
        decreases self,
    {
        &&& self.layer_arrays@.len() > 0
        &&& stacks_wf(self.layer_arrays@)
        &&& match self.post_head {
            Some(h) => {
                &&& h.wf()
                &&& h.in_channels == self.layer_arrays@.last().head_rechannel.out_ch
                &&& h.convs@.last().out_ch == self.out_channels
            },
            None => self.layer_arrays@.last().head_rechannel.out_ch == self.out_channels,
        }
        &&& self.condition_input.wf()
        &&& self.condition_input.rows == self.in_channels
        &&& self.output.wf()
        &&& self.output.rows == self.out_channels
        &&& match self.condition_dsp {
            Some(cd) => {
                &&& cd.wf()
                &&& cd.in_channels == self.in_channels
            },
            None => true,
        }
    }

    /// The buffers have room for blocks of this many frames.
    pub open spec fn sized(&self, max: nat) -> bool
        decreases self,
    {
        &&& self.max_frames == max
        &&& stacks_sized(self.layer_arrays@, max)
        &&& self.post_head matches Some(h) ==> h.sized(max)
        &&& self.condition_input.cols == max
        &&& self.output.cols == max
        &&& match self.condition_dsp {
            Some(cd) => cd.sized(max),
            None => true,
        }
    }

    /// The map that this network computes.
    pub open spec fn model(&self) -> NetModel<S>
        decreases self,
    {
        NetModel {
            arrays: stack_models(self.layer_arrays@),
            scale: self.head_scale,
            head: match self.post_head {
                Some(h) => Some(h.model()),
                None => None,
            },
            condition: match self.condition_dsp {
                Some(cd) => Some(Box::new(cd.model())),
                None => None,
            },
            inputs: self.in_channels as nat,
            outputs: self.out_channels as nat,
        }
    }

    /// What this network remembers.
    pub open spec fn state(&self) -> NetState<S>
        decreases self,
    {
        NetState {
            arrays: stack_states(self.layer_arrays@),
            head: match self.post_head {
                Some(h) => Some(h.state()),
                None => None,
            },
            condition: match self.condition_dsp {
                Some(cd) => Some(Box::new(cd.state())),
                None => None,
            },
        }
    }

    /// The network is complete: the shapes agree, and it knows how long it takes
    /// to come to rest.
    pub open spec fn built(&self) -> bool {
        &&& self.wf()
        &&& self.prewarm_samples == net_reach(self.model())
        &&& self.prewarm_samples >= 1
    }
}

} // verus!
