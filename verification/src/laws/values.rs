//! A model whose activations have values everywhere takes all samples.

use crate::num::Scalar;
use crate::pure::activations::{block_defined, total};
use crate::pure::dsp::{dsp_defined, dsp_run, dsp_total, leaf, DspModel, DspState};
use crate::pure::layer::{layer_defined, layer_total};
use crate::pure::layer_array::{array_defined, array_total, stack_input, ArrayModel, ArrayState};
use crate::pure::model::{settles, stream_defined};
use crate::pure::net::{net_defined, net_total, stacks_defined, NetModel, NetState};
use crate::pure::nn::affine_block;
use crate::pure::post_head::{head_defined, head_input};
use crate::pure::wavenet::mono_block;
use vstd::prelude::*;

verus! {

/// A network whose activations have values everywhere has a value for every
/// block.
pub proof fn total_networks_take_every_block<S: Scalar>(
    m: NetModel<S>,
    st: NetState<S>,
    x: Seq<Seq<S>>,
)
    requires
        net_total(m),
    ensures
        net_defined(m, st, x),
    decreases m,
{
    if let Some(cd) = m.condition {
        total_networks_take_every_block(*cd, *st.condition->0, x);
    }
    reveal(stacks_defined);
    assert forall|i: int, y: Seq<Seq<S>>, c: Seq<Seq<S>>|
        0 <= i < m.arrays.len() implies #[trigger] array_defined(
        m.arrays[i],
        st.arrays[i],
        y,
        c,
        x.len(),
    ) by {
        assert(array_total(m.arrays[i]));
        lemma_array_takes(m.arrays[i], st.arrays[i], y, c, x.len());
    }
    if let Some(h) = m.head {
        assert forall|y: Seq<Seq<S>>| #[trigger] head_defined(h, st.head->0, y) by {
            assert forall|i: int| 0 <= i < h.stages.len() implies block_defined(
                (#[trigger] h.stages[i]).0,
                head_input(h, st.head->0, y, i as nat),
            ) by {
                assert(total(h.stages[i].0));
            }
        }
    }
}

/// A stack whose activations have values everywhere takes every block.
proof fn lemma_array_takes<S: Scalar>(
    m: ArrayModel<S>,
    st: ArrayState<S>,
    x: Seq<Seq<S>>,
    c: Seq<Seq<S>>,
    n: nat,
)
    requires
        array_total(m),
    ensures
        array_defined(m, st, x, c, n),
{
    let first = affine_block(m.rechannel, x, n);
    assert forall|i: int| 0 <= i < m.layers.len() implies layer_defined(
        #[trigger] m.layers[i],
        st.layers[i],
        stack_input(m.layers, st.layers, first, c, n, i as nat),
        c,
        n,
    ) by {
        assert(layer_total(m.layers[i]));
    }
}

/// A model whose activations have values everywhere can be brought to rest, and
/// takes all samples.
pub proof fn total_models_take_all_samples<S: Scalar>(
    m: DspModel<S>,
    st: DspState<S>,
    x: Seq<S::Wide>,
    max: nat,
)
    requires
        dsp_total(m),
    ensures
        settles(m, max),
        stream_defined(m, st, x, max),
    decreases x.len(),
{
    assert forall|s: DspState<S>, y: Seq<S::Wide>| #[trigger] dsp_defined(m, s, y) by {
        match leaf(m) {
            DspModel::Net(n) => total_networks_take_every_block(
                n,
                s->Net_0,
                mono_block::<S>(n.inputs, y),
            ),
            DspModel::Slim(_, _, n) => total_networks_take_every_block(
                n,
                s->Net_0,
                mono_block::<S>(n.inputs, y),
            ),
            _ => {},
        }
    }
    if x.len() > 0 && max > 0 {
        let n = if x.len() < max {
            x.len()
        } else {
            max
        };
        total_models_take_all_samples(
            m,
            dsp_run(m, st, x.take(n as int)).state,
            x.skip(n as int),
            max,
        );
    }
}

} // verus!
