//! The condition reaches the contributions of the condition and the modulations
//! alone: a network with neither does not show what makes its condition.

use crate::num::{zeros, Scalar};
use crate::pure::dsp::{DspModel, DspState};
use crate::pure::layer::{conv_inputs, layer_run, mixed, next_frame, summed, LayerModel};
use crate::pure::layer_array::{
    array_run, head_start, stack_head, stack_input, stack_run, ArrayModel, ArrayState,
};
use crate::pure::model::chunk_run;
use crate::pure::net::{net_run, stacks_run, NetModel, NetState};
use crate::pure::nn::{affine, affine_block, mac};
use crate::pure::wavenet::mono_block;
use vstd::prelude::*;

verus! {

/// A number vanishes when it is multiplied by zero and added to zero, as every
/// finite number does.
pub open spec fn vanishes<S: Scalar>(x: S) -> bool {
    S::zero_spec().add_spec(S::zero_spec().mul_spec(x)) == S::zero_spec()
}

/// The first `rows` channels of the first `n` frames vanish.
pub open spec fn block_vanishes<S: Scalar>(c: Seq<Seq<S>>, n: nat, rows: nat) -> bool {
    forall|f: int, r: int| 0 <= f < n && 0 <= r < rows ==> vanishes(#[trigger] c[f][r])
}

/// A layer ignores its condition: its weights are zero and there is no
/// modulation.
pub open spec fn layer_ignores<S: Scalar>(m: LayerModel<S>) -> bool {
    &&& forall|o: int, i: int|
        0 <= o < m.mixin.outputs && 0 <= i < m.mixin.inputs ==> #[trigger] m.mixin.weight[o][i]
            == S::zero_spec()
    &&& m.mixin.offset == zeros::<S>(m.mixin.outputs)
    &&& m.conv_pre is None
    &&& m.conv_post is None
    &&& m.mixin_pre is None
    &&& m.mixin_post is None
    &&& m.act_pre is None
    &&& m.act_post is None
    &&& m.layer1x1_post is None
    &&& m.head1x1_post is None
}

/// The layers of a stack ignore the condition, of which they read at most `rows`
/// channels.
pub open spec fn array_ignores<S: Scalar>(m: ArrayModel<S>, rows: nat) -> bool {
    forall|i: int|
        0 <= i < m.layers.len() ==> layer_ignores(#[trigger] m.layers[i])
            && m.layers[i].mixin.inputs <= rows
}

/// What zero weights make of a frame that vanishes.
proof fn lemma_nothing<S: Scalar>(row: Seq<S>, x: Seq<S>, n: nat)
    requires
        forall|i: int| 0 <= i < n ==> #[trigger] row[i] == S::zero_spec(),
        forall|i: int| 0 <= i < n ==> vanishes(#[trigger] x[i]),
    ensures
        mac(S::zero_spec(), row, x, n) == S::zero_spec(),
    decreases n,
{
    if n > 0 {
        lemma_nothing(row, x, (n - 1) as nat);
        assert(row[n - 1] == S::zero_spec());
        assert(vanishes(x[n - 1]));
    }
}

/// A layer makes the same of a block under two conditions that it ignores.
proof fn lemma_layer_ignores<S: Scalar>(
    m: LayerModel<S>,
    h: Seq<Seq<S>>,
    x: Seq<Seq<S>>,
    c: Seq<Seq<S>>,
    d: Seq<Seq<S>>,
    n: nat,
)
    requires
        layer_ignores(m),
        block_vanishes(c, n, m.mixin.inputs),
        block_vanishes(d, n, m.mixin.inputs),
    ensures
        layer_run(m, h, x, c, n).history == layer_run(m, h, x, d, n).history,
        layer_run(m, h, x, c, n).skip == layer_run(m, h, x, d, n).skip,
        layer_run(m, h, x, c, n).next == layer_run(m, h, x, d, n).next,
{
    let a = layer_run(m, h, x, c, n);
    let b = layer_run(m, h, x, d, n);
    assert(conv_inputs(m, x, c, n) =~= conv_inputs(m, x, d, n));
    assert forall|f: int| 0 <= f < n implies #[trigger] a.hidden[f] == b.hidden[f] by {
        assert(mixed(m, c[f]) =~= mixed(m, d[f])) by {
            assert forall|o: int| 0 <= o < m.mixin.outputs implies #[trigger] affine(
                m.mixin,
                c[f],
            )[o] == affine(m.mixin, d[f])[o] by {
                lemma_nothing(m.mixin.weight[o], c[f], m.mixin.inputs);
                lemma_nothing(m.mixin.weight[o], d[f], m.mixin.inputs);
            }
        }
        let y = crate::pure::conv1d::dilated_block(m.conv, h, conv_inputs(m, x, c, n))[f];
        assert(summed(m, y, c[f]) =~= summed(m, y, d[f]));
    }
    assert(a.hidden =~= b.hidden);
    assert(a.skip =~= b.skip);
    assert forall|f: int| 0 <= f < n implies #[trigger] a.next[f] == b.next[f] by {
        assert(a.hidden[f] == b.hidden[f]);
        assert(next_frame(m, x[f], a.hidden[f], c[f]) =~= next_frame(
            m,
            x[f],
            a.hidden[f],
            d[f],
        ));
    }
    assert(a.next =~= b.next);
}

/// The first `i` layers of a stack make the same under two conditions that they
/// ignore.
proof fn lemma_layers_ignore<S: Scalar>(
    m: ArrayModel<S>,
    h: Seq<Seq<Seq<S>>>,
    x: Seq<Seq<S>>,
    c: Seq<Seq<S>>,
    d: Seq<Seq<S>>,
    start: Seq<Seq<S>>,
    n: nat,
    rows: nat,
    i: nat,
)
    requires
        array_ignores(m, rows),
        block_vanishes(c, n, rows),
        block_vanishes(d, n, rows),
        i <= m.layers.len(),
    ensures
        stack_input(m.layers, h, x, c, n, i) == stack_input(m.layers, h, x, d, n, i),
        stack_head(m.layers, h, x, c, n, start, i) == stack_head(m.layers, h, x, d, n, start, i),
        forall|j: int|
            0 <= j < i ==> (#[trigger] stack_run(m.layers, h, x, c, n, j)).history == stack_run(
                m.layers,
                h,
                x,
                d,
                n,
                j,
            ).history,
    decreases i,
{
    if i > 0 {
        let j = (i - 1) as nat;
        lemma_layers_ignore(m, h, x, c, d, start, n, rows, j);
        assert(layer_ignores(m.layers[i - 1]));
        lemma_layer_ignores(
            m.layers[i - 1],
            h[i - 1],
            stack_input(m.layers, h, x, c, n, j),
            c,
            d,
            n,
        );
    }
}

/// A stack makes the same of a block under two conditions that it ignores.
proof fn lemma_array_ignores<S: Scalar>(
    m: ArrayModel<S>,
    st: ArrayState<S>,
    x: Seq<Seq<S>>,
    c: Seq<Seq<S>>,
    d: Seq<Seq<S>>,
    head_in: Option<Seq<Seq<S>>>,
    n: nat,
    rows: nat,
)
    requires
        array_ignores(m, rows),
        block_vanishes(c, n, rows),
        block_vanishes(d, n, rows),
    ensures
        array_run(m, st, x, c, head_in, n) == array_run(m, st, x, d, head_in, n),
{
    let first = affine_block(m.rechannel, x, n);
    let start = head_start(m.head.inputs, head_in, n);
    lemma_layers_ignore(m, st.layers, first, c, d, start, n, rows, m.layers.len());
    let a = array_run(m, st, x, c, head_in, n);
    let b = array_run(m, st, x, d, head_in, n);
    assert(a.state.layers =~= b.state.layers);
}

/// The stacks make the same of a block under two conditions that they ignore.
proof fn lemma_stacks_ignore<S: Scalar>(
    arrays: Seq<ArrayModel<S>>,
    states: Seq<ArrayState<S>>,
    x: Seq<Seq<S>>,
    c: Seq<Seq<S>>,
    d: Seq<Seq<S>>,
    n: nat,
    rows: nat,
    i: nat,
)
    requires
        forall|k: int| 0 <= k < arrays.len() ==> array_ignores(#[trigger] arrays[k], rows),
        block_vanishes(c, n, rows),
        block_vanishes(d, n, rows),
        i < arrays.len(),
    ensures
        stacks_run(arrays, states, x, c, n, i) == stacks_run(arrays, states, x, d, n, i),
    decreases i,
{
    let k = i as int;
    assert(array_ignores(arrays[k], rows));
    if i == 0 {
        lemma_array_ignores(arrays[0], states[0], x, c, d, None, n, rows);
    } else {
        lemma_stacks_ignore(arrays, states, x, c, d, n, rows, (i - 1) as nat);
        let before = stacks_run(arrays, states, x, c, n, (i - 1) as nat);
        lemma_array_ignores(
            arrays[k],
            states[k],
            before.next,
            c,
            d,
            Some(before.head),
            n,
            rows,
        );
    }
}

/// A network whose stacks ignore the condition gives the same, whatever network
/// makes the condition, as long as both conditions vanish.
pub proof fn condition_network_does_not_show<S: Scalar>(
    a: NetModel<S>,
    b: NetModel<S>,
    sa: NetState<S>,
    sb: NetState<S>,
    x: Seq<Seq<S>>,
    rows: nat,
)
    requires
        a.condition is Some,
        b == (NetModel { condition: b.condition, ..a }),
        b.condition is Some,
        sb == (NetState { condition: sb.condition, ..sa }),
        a.arrays.len() > 0,
        forall|k: int| 0 <= k < a.arrays.len() ==> array_ignores(#[trigger] a.arrays[k], rows),
        block_vanishes(
            net_run(*a.condition->0, *sa.condition->0, x).output,
            x.len(),
            rows,
        ),
        block_vanishes(
            net_run(*b.condition->0, *sb.condition->0, x).output,
            x.len(),
            rows,
        ),
    ensures
        net_run(a, sa, x).output == net_run(b, sb, x).output,
        net_run(a, sa, x).state.arrays == net_run(b, sb, x).state.arrays,
        net_run(a, sa, x).state.head == net_run(b, sb, x).state.head,
{
    let c = net_run(*a.condition->0, *sa.condition->0, x).output;
    let d = net_run(*b.condition->0, *sb.condition->0, x).output;
    let p = net_run(a, sa, x);
    let q = net_run(b, sb, x);
    assert forall|i: int| 0 <= i < a.arrays.len() implies #[trigger] p.state.arrays[i]
        == q.state.arrays[i] by {
        lemma_stacks_ignore(a.arrays, sa.arrays, x, c, d, x.len(), rows, i as nat);
    }
    assert(p.state.arrays =~= q.state.arrays);
    let last = (a.arrays.len() - 1) as nat;
    lemma_stacks_ignore(a.arrays, sa.arrays, x, c, d, x.len(), rows, last);
}

/// The condition that a network makes of samples, in blocks of up to `max`
/// samples, vanishes.
pub open spec fn conditions_vanish<S: Scalar>(
    m: NetModel<S>,
    st: NetState<S>,
    x: Seq<S::Wide>,
    max: nat,
    rows: nat,
) -> bool
    decreases x.len(),
{
    if x.len() == 0 || max == 0 {
        true
    } else {
        let n = if x.len() < max {
            x.len()
        } else {
            max
        };
        let block = mono_block::<S>(m.inputs, x.take(n as int));
        &&& block_vanishes(net_run(*m.condition->0, *st.condition->0, block).output, n, rows)
        &&& conditions_vanish(m, net_run(m, st, block).state, x.skip(n as int), max, rows)
    }
}

/// A model whose stacks ignore the condition makes the same samples, whatever
/// network makes the condition, as long as both conditions vanish.
pub proof fn condition_network_is_not_heard<S: Scalar>(
    a: NetModel<S>,
    b: NetModel<S>,
    sa: NetState<S>,
    sb: NetState<S>,
    x: Seq<S::Wide>,
    max: nat,
    rows: nat,
)
    requires
        a.condition is Some,
        b == (NetModel { condition: b.condition, ..a }),
        b.condition is Some,
        sa.condition is Some,
        sb == (NetState { condition: sb.condition, ..sa }),
        sb.condition is Some,
        a.arrays.len() > 0,
        forall|k: int| 0 <= k < a.arrays.len() ==> array_ignores(#[trigger] a.arrays[k], rows),
        conditions_vanish(a, sa, x, max, rows),
        conditions_vanish(b, sb, x, max, rows),
    ensures
        chunk_run(DspModel::Net(a), DspState::Net(sa), x, max).output == chunk_run(
            DspModel::Net(b),
            DspState::Net(sb),
            x,
            max,
        ).output,
    decreases x.len(),
{
    if x.len() > 0 && max > 0 {
        let n = if x.len() < max {
            x.len()
        } else {
            max
        };
        let block = mono_block::<S>(a.inputs, x.take(n as int));
        let p = net_run(a, sa, block);
        let q = net_run(b, sb, block);
        condition_network_does_not_show(a, b, sa, sb, block, rows);
        assert(q.state == (NetState { condition: q.state.condition, ..p.state }));
        condition_network_is_not_heard(a, b, p.state, q.state, x.skip(n as int), max, rows);
    }
}

} // verus!
