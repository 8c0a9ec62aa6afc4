//! A reset brings a network to rest: how much room it makes does not show, and
//! more silence changes nothing.

use crate::laws::blocks::{array_steady, layer_steady, net_steady, stage_rows, steady};
use crate::laws::memory::{array_tapped, head_tapped, net_forgets, net_tapped};
use crate::laws::streams::{
    any_room, dsp_split, dsp_state_fits, dsp_steady, net_rest_fits, warm_fits,
};
use crate::num::Scalar;
use crate::pure::dsp::{dsp_reach, dsp_rest, dsp_run, leaf, DspModel, DspState};
use crate::pure::model::{after_silence, blocks_for, chunk_run, quiet_block, warm};
use crate::pure::net::NetModel;
use crate::pure::wavenet::mono_block;
use vstd::prelude::*;

verus! {

/// The network that a model runs, where it is a network.
pub open spec fn running_net<S: Scalar>(m: DspModel<S>) -> Option<NetModel<S>> {
    match leaf(m) {
        DspModel::Net(n) => Some(n),
        DspModel::Slim(_, _, n) => Some(n),
        _ => None,
    }
}

/// A network that treats all frames alike has a tap in every convolution.
proof fn lemma_steady_tapped<S: Scalar>(m: NetModel<S>)
    requires
        net_steady(m),
    ensures
        net_tapped(m),
    decreases m,
{
    assert forall|i: int| 0 <= i < m.arrays.len() implies array_tapped(#[trigger] m.arrays[i]) by {
        let a = m.arrays[i];
        assert(array_steady(a));
        assert forall|k: int| 0 <= k < a.layers.len() implies (
        #[trigger] a.layers[k]).conv.weight.len() >= 1 by {
            assert(layer_steady(a.layers[k]));
        }
    }
    if let Some(h) = m.head {
        let rows = m.arrays.last().head.outputs;
        assert forall|i: int| 0 <= i < h.stages.len() implies (
        #[trigger] h.stages[i]).1.weight.len() >= 1 by {
            assert(steady(
                h.stages[i].0,
                stage_rows(h, rows, i),
            ));
        }
        assert(head_tapped(h));
    }
    if let Some(cd) = m.condition {
        lemma_steady_tapped(*cd);
    }
}

/// A model that runs a network forgets: after a block as long as its reach it
/// remembers the same, whatever it remembered before.
pub proof fn model_forgets<S: Scalar>(
    m: DspModel<S>,
    st: DspState<S>,
    su: DspState<S>,
    x: Seq<S::Wide>,
)
    requires
        running_net(m) matches Some(n) && net_tapped(n),
        dsp_state_fits(m, st),
        dsp_state_fits(m, su),
        x.len() >= dsp_reach(m) - 1,
    ensures
        dsp_reach(m) >= 1,
        dsp_run(m, st, x).state == dsp_run(m, su, x).state,
{
    let n = running_net(m)->0;
    net_forgets(n, st->Net_0, su->Net_0, mono_block::<S>(n.inputs, x));
}

/// Blocks of silence are one long silence.
proof fn lemma_one_silence<S: Scalar>(m: DspModel<S>, st: DspState<S>, max: nat, k: nat)
    requires
        dsp_steady(m),
        dsp_state_fits(m, st),
        k >= 1,
    ensures
        after_silence(m, st, max, k) == dsp_run(m, st, quiet_block::<S::Wide>(max * k)).state,
        dsp_state_fits(m, after_silence(m, st, max, k)),
    decreases k,
{
    let q = quiet_block::<S::Wide>(max);
    if k == 1 {
        assert(max * 1 == max);
        reveal_with_fuel(after_silence, 2);
        dsp_split(m, st, q, Seq::empty());
    } else {
        let j = (k - 1) as nat;
        lemma_one_silence(m, st, max, j);
        assert(max * j + max == max * k) by (nonlinear_arith)
            requires
                j == k - 1,
        ;
        let before = quiet_block::<S::Wide>(max * j);
        assert(before + q =~= quiet_block::<S::Wide>(max * k));
        dsp_split(m, st, before, q);
        dsp_split(m, after_silence(m, st, max, j), q, Seq::empty());
    }
}

/// All silences that are long enough leave the same behind.
proof fn lemma_same_silence<S: Scalar>(m: DspModel<S>, i: nat, j: nat)
    requires
        dsp_steady(m),
        running_net(m) is Some,
        i >= dsp_reach(m),
        j >= i,
    ensures
        dsp_run(m, dsp_rest(m), quiet_block::<S::Wide>(i)).state == dsp_run(
            m,
            dsp_rest(m),
            quiet_block::<S::Wide>(j),
        ).state,
{
    let n = running_net(m)->0;
    net_rest_fits(n);
    lemma_steady_tapped(n);
    let a = quiet_block::<S::Wide>((j - i) as nat);
    let b = quiet_block::<S::Wide>(i);
    assert(a + b =~= quiet_block::<S::Wide>(j));
    dsp_split(m, dsp_rest(m), a, b);
    model_forgets(m, dsp_rest(m), dsp_run(m, dsp_rest(m), a).state, b);
}

/// The silence of a reset is as long as the model looks back.
proof fn lemma_enough(reach: int, max: int)
    requires
        reach >= 1,
        max >= 1,
    ensures
        blocks_for(reach, max) >= 1,
        max * blocks_for(reach, max) >= reach,
{
    let k = (reach + max - 1) / max;
    assert(k >= 1 && max * k >= reach) by (nonlinear_arith)
        requires
            k == (reach + max - 1) / max,
            reach >= 1,
            max >= 1,
    ;
}

/// What a reset leaves behind is what any silence leaves that is long enough.
proof fn lemma_warm<S: Scalar>(m: DspModel<S>, max: nat, n: nat)
    requires
        dsp_steady(m),
        running_net(m) is Some,
        max >= 1,
        n >= dsp_reach(m),
    ensures
        warm(m, max) == dsp_run(m, dsp_rest(m), quiet_block::<S::Wide>(n)).state,
{
    let net = running_net(m)->0;
    net_rest_fits(net);
    lemma_steady_tapped(net);
    model_forgets(m, dsp_rest(m), dsp_rest(m), quiet_block::<S::Wide>(n));
    let reach = dsp_reach(m);
    let k = blocks_for(reach, max as int);
    lemma_enough(reach, max as int);
    lemma_one_silence(m, dsp_rest(m), max, k);
    if n <= max * k {
        lemma_same_silence(m, n, max * k);
    } else {
        lemma_same_silence(m, max * k, n);
    }
}

/// The room that a reset makes does not show in what a network remembers after
/// it.
pub proof fn any_reset<S: Scalar>(m: DspModel<S>, i: nat, j: nat)
    requires
        dsp_steady(m),
        running_net(m) is Some,
        i >= 1,
        j >= 1,
    ensures
        warm(m, i) == warm(m, j),
{
    let n = if dsp_reach(m) >= 0 {
        dsp_reach(m) as nat
    } else {
        0
    };
    lemma_warm(m, i, n);
    lemma_warm(m, j, n);
}

/// After a reset a network gives the same, however much room the reset made.
pub proof fn reset_room_does_not_show<S: Scalar>(
    m: DspModel<S>,
    x: Seq<S::Wide>,
    i: nat,
    j: nat,
)
    requires
        dsp_steady(m),
        running_net(m) is Some,
        i >= 1,
        j >= 1,
    ensures
        chunk_run(m, warm(m, i), x, i) == chunk_run(m, warm(m, j), x, j),
{
    any_reset(m, i, j);
    warm_fits(m, i);
    if x.len() > 0 {
        any_room(m, warm(m, i), x, i);
        any_room(m, warm(m, i), x, j);
    }
}

/// A reset brings a network to rest: silence after it changes nothing.
pub proof fn reset_comes_to_rest<S: Scalar>(m: DspModel<S>, max: nat, n: nat)
    requires
        dsp_steady(m),
        running_net(m) is Some,
        max >= 1,
    ensures
        chunk_run(m, warm(m, max), quiet_block::<S::Wide>(n), max).state == warm(m, max),
{
    if n > 0 {
        let reach = if dsp_reach(m) >= 0 {
            dsp_reach(m) as nat
        } else {
            0
        };
        net_rest_fits(running_net(m)->0);
        warm_fits(m, max);
        lemma_warm(m, max, reach);
        lemma_warm(m, max, reach + n);
        let a = quiet_block::<S::Wide>(reach);
        let b = quiet_block::<S::Wide>(n);
        assert(a + b =~= quiet_block::<S::Wide>(reach + n));
        dsp_split(m, dsp_rest(m), a, b);
        any_room(m, warm(m, max), b, max);
    }
}

} // verus!
