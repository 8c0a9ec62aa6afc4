//! Block boundaries do not show: a signal that is processed in two blocks gives
//! what it gives in one.

use crate::num::Scalar;
use crate::pure::activations::{activated, activated_block, activated_frame, Act};
use crate::pure::conv1d::{dilated_block, lemma_same_signal, lookback, rolled, tap_sum, Dilated};
use crate::pure::layer::{
    conv_inputs, gated_frame, hidden_frame, layer_run, summed, z_rows, GatingMode, LayerModel,
};
use crate::pure::layer_array::{
    added, array_run, head_start, stack_head, stack_input, stack_run, ArrayModel, ArrayState,
};
use crate::pure::mat::cell;
use crate::pure::net::{net_run, scaled, stacks_run, NetModel, NetState};
use crate::pure::nn::affine_block;
use crate::pure::post_head::{head_input, head_rolled, head_shaped, HeadModel};
use vstd::arithmetic::mul::*;
use vstd::prelude::*;

verus! {

// Which models ===============================================================

/// An activation treats the frames of a block alike, in blocks with `rows`
/// channels.
pub open spec fn steady<S: Scalar>(a: Act<S>, rows: nat) -> bool {
    forall|x: S, f: int, r: int|
        0 <= f && 0 <= r < rows ==> #[trigger] activated(a, x, cell(rows as int, f, r))
            == activated(a, x, r)
}

/// Every activation but one with several slopes treats all frames alike.
pub proof fn steady_without_slopes<S: Scalar>(a: Act<S>, rows: nat)
    requires
        !(a is PReLU),
    ensures
        steady(a, rows),
{
}

/// An activation with several slopes treats all frames alike where its slopes
/// divide the channels evenly.
pub proof fn steady_with_slopes<S: Scalar>(slopes: Seq<S>, rows: nat)
    requires
        slopes.len() > 0,
        rows as int % slopes.len() as int == 0,
    ensures
        steady(Act::PReLU(slopes), rows),
{
    let len = slopes.len() as int;
    assert forall|x: S, f: int, r: int| 0 <= f && 0 <= r < rows implies #[trigger] activated(
        Act::PReLU(slopes),
        x,
        cell(rows as int, f, r),
    ) == activated(Act::PReLU(slopes), x, r) by {
        let q = rows as int / len;
        assert(cell(rows as int, f, r) % len == r % len) by {
            vstd::arithmetic::div_mod::lemma_fundamental_div_mod(rows as int, len);
            assert(f * rows + r == len * (f * q) + r) by (nonlinear_arith)
                requires
                    rows == len * q,
            ;
            vstd::arithmetic::div_mod::lemma_mod_multiples_vanish(f * q, r, len);
        }
    }
}

/// A layer treats the frames of a block alike.
pub open spec fn layer_steady<S: Scalar>(m: LayerModel<S>) -> bool {
    &&& m.conv.weight.len() >= 1
    &&& m.gating == GatingMode::Ungated ==> steady(m.act, z_rows(m.gating, m.bottleneck))
}

/// A stack treats the frames of a block alike.
pub open spec fn array_steady<S: Scalar>(m: ArrayModel<S>) -> bool {
    &&& m.head.weight.len() >= 1
    &&& forall|i: int| 0 <= i < m.layers.len() ==> layer_steady(#[trigger] m.layers[i])
}

/// Channels that stage `i` of a head is given, where the head is given `rows`.
pub open spec fn stage_rows<S>(m: HeadModel<S>, rows: nat, i: int) -> nat {
    if i == 0 {
        rows
    } else {
        m.stages[i - 1].1.outputs
    }
}

/// A head that is given `rows` channels treats the frames of a block alike.
pub open spec fn head_steady<S: Scalar>(m: HeadModel<S>, rows: nat) -> bool {
    forall|i: int|
        0 <= i < m.stages.len() ==> {
            &&& m.stages[i].1.weight.len() >= 1
            &&& steady(m.stages[i].0, #[trigger] stage_rows(m, rows, i))
        }
}

/// A network treats the frames of a block alike.
pub open spec fn net_steady<S: Scalar>(m: NetModel<S>) -> bool
    decreases m,
{
    &&& m.arrays.len() > 0
    &&& forall|i: int| 0 <= i < m.arrays.len() ==> array_steady(#[trigger] m.arrays[i])
    &&& m.head matches Some(h) ==> head_steady(h, m.arrays.last().head.outputs)
    &&& m.condition matches Some(cd) ==> net_steady(*cd)
}

/// The histories of a stack are as long as its parts look back.
pub open spec fn array_state_fits<S>(m: ArrayModel<S>, st: ArrayState<S>) -> bool {
    &&& st.layers.len() == m.layers.len()
    &&& forall|i: int|
        0 <= i < m.layers.len() ==> (#[trigger] st.layers[i]).len() == lookback(m.layers[i].conv)
    &&& st.head.len() == lookback(m.head)
}

/// The histories of a head are as long as its parts look back.
pub open spec fn head_state_fits<S>(m: HeadModel<S>, st: Seq<Seq<Seq<S>>>) -> bool {
    &&& st.len() == m.stages.len()
    &&& forall|i: int|
        0 <= i < m.stages.len() ==> (#[trigger] st[i]).len() == lookback(m.stages[i].1)
}

/// The histories of a network are as long as its parts look back.
pub open spec fn net_state_fits<S>(m: NetModel<S>, st: NetState<S>) -> bool
    decreases m,
{
    &&& st.arrays.len() == m.arrays.len()
    &&& forall|i: int|
        0 <= i < m.arrays.len() ==> array_state_fits(m.arrays[i], #[trigger] st.arrays[i])
    &&& match m.head {
        Some(h) => st.head matches Some(s) && head_state_fits(h, s),
        None => st.head is None,
    }
    &&& match m.condition {
        Some(cd) => st.condition matches Some(s) && net_state_fits(*cd, *s),
        None => st.condition is None,
    }
}

// Convolutions ===============================================================

/// A convolution in two blocks.
pub proof fn conv_split<S: Scalar>(
    m: Dilated<S>,
    h: Seq<Seq<S>>,
    x: Seq<Seq<S>>,
    y: Seq<Seq<S>>,
)
    requires
        m.weight.len() >= 1,
        h.len() == lookback(m),
    ensures
        dilated_block(m, h, x + y) == dilated_block(m, h, x) + dilated_block(m, rolled(h, x), y),
        rolled(h, x + y) == rolled(rolled(h, x), y),
        rolled(h, x).len() == h.len(),
{
    let whole = h + (x + y);
    let back = lookback(m);
    let a = dilated_block(m, h, x + y);
    let b = dilated_block(m, h, x) + dilated_block(m, rolled(h, x), y);
    assert forall|f: int| 0 <= f < x.len() + y.len() implies #[trigger] a[f] == b[f] by {
        if f < x.len() {
            assert forall|o: int| 0 <= o < m.outputs implies #[trigger] a[f][o] == b[f][o] by {
                lemma_same_signal(m, whole, h + x, back + f, o, m.weight.len());
            }
            assert(a[f] =~= b[f]);
        } else {
            let g = f - x.len();
            let late = rolled(h, x) + y;
            assert(late =~= whole.skip(x.len() as int));
            assert forall|o: int| 0 <= o < m.outputs implies #[trigger] a[f][o] == b[f][o] by {
                lemma_later_signal(m, whole, late, x.len() as int, back + g, o, m.weight.len());
            }
            assert(a[f] =~= b[f]);
        }
    }
    assert(a =~= b);
    assert(rolled(h, x + y) =~= rolled(rolled(h, x), y));
}

/// A convolution of a signal from its frame `n` on.
proof fn lemma_later_signal<S: Scalar>(
    m: Dilated<S>,
    a: Seq<Seq<S>>,
    b: Seq<Seq<S>>,
    n: int,
    at: int,
    o: int,
    k: nat,
)
    requires
        m.weight.len() >= 1,
        k <= m.weight.len(),
        lookback(m) <= at < b.len(),
        0 <= n,
        b == a.skip(n),
        n <= a.len(),
    ensures
        tap_sum(m, a, at + n, o, k) == tap_sum(m, b, at, o, k),
    decreases k,
{
    if k > 0 {
        lemma_later_signal(m, a, b, n, at, o, (k - 1) as nat);
        let t = m.weight.len() - k;
        lemma_mul_inequality(t, m.weight.len() - 1, m.dilation as int);
        lemma_mul_is_commutative(t, m.dilation as int);
        lemma_mul_nonnegative(m.dilation as int, t);
        assert(a[at + n - m.dilation * t] == b[at - m.dilation * t]);
    }
}

// Layers =====================================================================

/// A layer in two blocks.
pub proof fn layer_split<S: Scalar>(
    m: LayerModel<S>,
    h: Seq<Seq<S>>,
    x: Seq<Seq<S>>,
    y: Seq<Seq<S>>,
    c: Seq<Seq<S>>,
    d: Seq<Seq<S>>,
)
    requires
        layer_steady(m),
        h.len() == lookback(m.conv),
        c.len() == x.len(),
        d.len() == y.len(),
    ensures
        ({
            let whole = layer_run(m, h, x + y, c + d, x.len() + y.len());
            let first = layer_run(m, h, x, c, x.len());
            let second = layer_run(m, first.history, y, d, y.len());
            &&& whole.history == second.history
            &&& whole.skip == first.skip + second.skip
            &&& whole.next == first.next + second.next
            &&& first.history.len() == h.len()
        }),
{
    let n = x.len();
    let whole = layer_run(m, h, x + y, c + d, x.len() + y.len());
    let first = layer_run(m, h, x, c, n);
    let second = layer_run(m, first.history, y, d, y.len());
    let u = conv_inputs(m, x, c, n);
    let v = conv_inputs(m, y, d, y.len());
    assert(conv_inputs(m, x + y, c + d, x.len() + y.len()) =~= u + v);
    conv_split(m.conv, h, u, v);
    assert forall|f: int| 0 <= f < n + y.len() implies #[trigger] whole.hidden[f]
        == (first.hidden + second.hidden)[f] by {
        if f >= n {
            let g = f - n;
            let z = dilated_block(m.conv, first.history, v)[g];
            lemma_hidden_steady(m, z, d[g], f);
            lemma_hidden_steady(m, z, d[g], g);
        }
    }
    assert(whole.hidden =~= first.hidden + second.hidden);
    assert(whole.skip =~= first.skip + second.skip);
    assert(whole.next =~= first.next + second.next);
}

/// A layer treats a frame alike at every place of a block.
proof fn lemma_hidden_steady<S: Scalar>(m: LayerModel<S>, y: Seq<S>, c: Seq<S>, f: int)
    requires
        layer_steady(m),
        f >= 0,
    ensures
        hidden_frame(m, y, c, f) == hidden_frame(m, y, c, 0),
{
    let z = summed(m, y, c);
    if m.gating == GatingMode::Ungated {
        lemma_frame_steady(m.act, z, f);
    }
    assert(gated_frame(m, z, f) =~= gated_frame(m, z, 0));
}

/// An activation treats a frame alike at every place of a block.
proof fn lemma_frame_steady<S: Scalar>(a: Act<S>, z: Seq<S>, f: int)
    requires
        steady(a, z.len()),
        f >= 0,
    ensures
        activated_frame(a, z, f) == activated_frame(a, z, 0),
{
    let p = activated_frame(a, z, f);
    let q = activated_frame(a, z, 0);
    assert forall|r: int| 0 <= r < z.len() implies #[trigger] p[r] == q[r] by {
        assert(activated(a, z[r], cell(z.len() as int, f, r)) == activated(a, z[r], r));
        assert(activated(a, z[r], cell(z.len() as int, 0, r)) == activated(a, z[r], r));
    }
    assert(p =~= q);
}

// Stacks =====================================================================

/// The histories of the layers after a block.
pub open spec fn stack_histories<S: Scalar>(
    layers: Seq<LayerModel<S>>,
    h: Seq<Seq<Seq<S>>>,
    x: Seq<Seq<S>>,
    c: Seq<Seq<S>>,
) -> Seq<Seq<Seq<S>>> {
    Seq::new(layers.len(), |i: int| stack_run(layers, h, x, c, x.len(), i).history)
}

/// The layers of a stack in two blocks: what the first `i` layers make of them.
proof fn lemma_layers_split<S: Scalar>(
    layers: Seq<LayerModel<S>>,
    h: Seq<Seq<Seq<S>>>,
    x: Seq<Seq<S>>,
    y: Seq<Seq<S>>,
    c: Seq<Seq<S>>,
    d: Seq<Seq<S>>,
    i: nat,
)
    requires
        forall|k: int| 0 <= k < layers.len() ==> layer_steady(#[trigger] layers[k]),
        h.len() == layers.len(),
        forall|k: int|
            0 <= k < layers.len() ==> (#[trigger] h[k]).len() == lookback(layers[k].conv),
        c.len() == x.len(),
        d.len() == y.len(),
        i <= layers.len(),
    ensures
        ({
            let g = stack_histories(layers, h, x, c);
            let n = x.len() + y.len();
            let first = stack_input(layers, h, x, c, x.len(), i);
            let second = stack_input(layers, g, y, d, y.len(), i);
            &&& first.len() == x.len()
            &&& second.len() == y.len()
            &&& stack_input(layers, h, x + y, c + d, n, i) == first + second
        }),
    decreases i,
{
    if i > 0 {
        lemma_layers_split(layers, h, x, y, c, d, (i - 1) as nat);
        let g = stack_histories(layers, h, x, c);
        let first = stack_input(layers, h, x, c, x.len(), (i - 1) as nat);
        let second = stack_input(layers, g, y, d, y.len(), (i - 1) as nat);
        assert(g[i - 1] == stack_run(layers, h, x, c, x.len(), i - 1).history);
        layer_split(layers[i - 1], h[i - 1], first, second, c, d);
    }
}

/// A layer of a stack in two blocks.
proof fn lemma_stack_run_split<S: Scalar>(
    layers: Seq<LayerModel<S>>,
    h: Seq<Seq<Seq<S>>>,
    x: Seq<Seq<S>>,
    y: Seq<Seq<S>>,
    c: Seq<Seq<S>>,
    d: Seq<Seq<S>>,
    i: int,
)
    requires
        forall|k: int| 0 <= k < layers.len() ==> layer_steady(#[trigger] layers[k]),
        h.len() == layers.len(),
        forall|k: int|
            0 <= k < layers.len() ==> (#[trigger] h[k]).len() == lookback(layers[k].conv),
        c.len() == x.len(),
        d.len() == y.len(),
        0 <= i < layers.len(),
    ensures
        ({
            let g = stack_histories(layers, h, x, c);
            let whole = stack_run(layers, h, x + y, c + d, x.len() + y.len(), i);
            let first = stack_run(layers, h, x, c, x.len(), i);
            let second = stack_run(layers, g, y, d, y.len(), i);
            &&& whole.history == second.history
            &&& whole.skip == first.skip + second.skip
            &&& first.skip.len() == x.len()
            &&& second.skip.len() == y.len()
            &&& first.history.len() == h[i].len()
        }),
{
    lemma_layers_split(layers, h, x, y, c, d, i as nat);
    let g = stack_histories(layers, h, x, c);
    let first = stack_input(layers, h, x, c, x.len(), i as nat);
    let second = stack_input(layers, g, y, d, y.len(), i as nat);
    assert(g[i] == stack_run(layers, h, x, c, x.len(), i).history);
    layer_split(layers[i], h[i], first, second, c, d);
}

/// The summed skip outputs in two blocks.
proof fn lemma_stack_head_split<S: Scalar>(
    layers: Seq<LayerModel<S>>,
    h: Seq<Seq<Seq<S>>>,
    x: Seq<Seq<S>>,
    y: Seq<Seq<S>>,
    c: Seq<Seq<S>>,
    d: Seq<Seq<S>>,
    s: Seq<Seq<S>>,
    t: Seq<Seq<S>>,
    i: nat,
)
    requires
        forall|k: int| 0 <= k < layers.len() ==> layer_steady(#[trigger] layers[k]),
        h.len() == layers.len(),
        forall|k: int|
            0 <= k < layers.len() ==> (#[trigger] h[k]).len() == lookback(layers[k].conv),
        c.len() == x.len(),
        d.len() == y.len(),
        s.len() == x.len(),
        t.len() == y.len(),
        i <= layers.len(),
    ensures
        ({
            let g = stack_histories(layers, h, x, c);
            let n = x.len() + y.len();
            let first = stack_head(layers, h, x, c, x.len(), s, i);
            let second = stack_head(layers, g, y, d, y.len(), t, i);
            &&& first.len() == x.len()
            &&& second.len() == y.len()
            &&& stack_head(layers, h, x + y, c + d, n, s + t, i) == first + second
        }),
    decreases i,
{
    if i > 0 {
        lemma_stack_head_split(layers, h, x, y, c, d, s, t, (i - 1) as nat);
        lemma_stack_run_split(layers, h, x, y, c, d, i - 1);
        let g = stack_histories(layers, h, x, c);
        let a = stack_head(layers, h, x, c, x.len(), s, (i - 1) as nat);
        let b = stack_head(layers, g, y, d, y.len(), t, (i - 1) as nat);
        let p = stack_run(layers, h, x, c, x.len(), i - 1).skip;
        let q = stack_run(layers, g, y, d, y.len(), i - 1).skip;
        assert(added(a + b, p + q) =~= added(a, p) + added(b, q));
    }
}

/// What the heads of two blocks start from.
pub open spec fn joined<S>(p: Option<Seq<Seq<S>>>, q: Option<Seq<Seq<S>>>) -> Option<
    Seq<Seq<S>>,
> {
    match (p, q) {
        (Some(a), Some(b)) => Some(a + b),
        _ => None,
    }
}

/// A stack in two blocks.
pub proof fn array_split<S: Scalar>(
    m: ArrayModel<S>,
    st: ArrayState<S>,
    x: Seq<Seq<S>>,
    y: Seq<Seq<S>>,
    c: Seq<Seq<S>>,
    d: Seq<Seq<S>>,
    p: Option<Seq<Seq<S>>>,
    q: Option<Seq<Seq<S>>>,
)
    requires
        array_steady(m),
        array_state_fits(m, st),
        c.len() == x.len(),
        d.len() == y.len(),
        p is Some <==> q is Some,
        p matches Some(a) ==> a.len() == x.len(),
        q matches Some(b) ==> b.len() == y.len(),
    ensures
        ({
            let n = x.len() + y.len();
            let whole = array_run(m, st, x + y, c + d, joined(p, q), n);
            let first = array_run(m, st, x, c, p, x.len());
            let second = array_run(m, first.state, y, d, q, y.len());
            &&& whole.state == second.state
            &&& whole.next == first.next + second.next
            &&& whole.head == first.head + second.head
            &&& first.next.len() == x.len()
            &&& first.head.len() == x.len()
            &&& second.next.len() == y.len()
            &&& second.head.len() == y.len()
            &&& array_state_fits(m, first.state)
        }),
{
    let n = x.len() + y.len();
    let u = affine_block(m.rechannel, x, x.len());
    let v = affine_block(m.rechannel, y, y.len());
    assert(affine_block(m.rechannel, x + y, n) =~= u + v);
    let s = head_start(m.head.inputs, p, x.len());
    let t = head_start(m.head.inputs, q, y.len());
    assert(head_start(m.head.inputs, joined(p, q), n) =~= s + t);
    let layers = m.layers;
    let h = st.layers;
    let g = stack_histories(layers, h, u, c);
    lemma_layers_split(layers, h, u, v, c, d, layers.len());
    lemma_stack_head_split(layers, h, u, v, c, d, s, t, layers.len());
    let first = array_run(m, st, x, c, p, x.len());
    let second = array_run(m, first.state, y, d, q, y.len());
    let whole = array_run(m, st, x + y, c + d, joined(p, q), n);
    assert(first.state.layers =~= g);
    let a = stack_head(layers, h, u, c, x.len(), s, layers.len());
    let b = stack_head(layers, g, v, d, y.len(), t, layers.len());
    conv_split(m.head, st.head, a, b);
    assert forall|i: int| 0 <= i < layers.len() implies #[trigger] whole.state.layers[i]
        == second.state.layers[i] && first.state.layers[i].len() == h[i].len() by {
        lemma_stack_run_split(layers, h, u, v, c, d, i);
    }
    assert(whole.state =~= second.state);
}

/// The states of the stacks after a block.
pub open spec fn stacks_states<S: Scalar>(
    arrays: Seq<ArrayModel<S>>,
    states: Seq<ArrayState<S>>,
    x: Seq<Seq<S>>,
    c: Seq<Seq<S>>,
) -> Seq<ArrayState<S>> {
    Seq::new(arrays.len(), |i: int| stacks_run(arrays, states, x, c, x.len(), i as nat).state)
}

/// The stacks in two blocks: what stack `i` makes of them.
pub proof fn stacks_split<S: Scalar>(
    arrays: Seq<ArrayModel<S>>,
    states: Seq<ArrayState<S>>,
    x: Seq<Seq<S>>,
    y: Seq<Seq<S>>,
    c: Seq<Seq<S>>,
    d: Seq<Seq<S>>,
    i: nat,
)
    requires
        forall|k: int| 0 <= k < arrays.len() ==> array_steady(#[trigger] arrays[k]),
        states.len() == arrays.len(),
        forall|k: int|
            0 <= k < arrays.len() ==> array_state_fits(arrays[k], #[trigger] states[k]),
        c.len() == x.len(),
        d.len() == y.len(),
        i < arrays.len(),
    ensures
        ({
            let later = stacks_states(arrays, states, x, c);
            let whole = stacks_run(arrays, states, x + y, c + d, x.len() + y.len(), i);
            let first = stacks_run(arrays, states, x, c, x.len(), i);
            let second = stacks_run(arrays, later, y, d, y.len(), i);
            &&& whole.state == second.state
            &&& whole.next == first.next + second.next
            &&& whole.head == first.head + second.head
            &&& first.next.len() == x.len()
            &&& first.head.len() == x.len()
            &&& second.next.len() == y.len()
            &&& second.head.len() == y.len()
            &&& array_state_fits(arrays[i as int], first.state)
        }),
    decreases i,
{
    let later = stacks_states(arrays, states, x, c);
    let k = i as int;
    assert(later[k] == stacks_run(arrays, states, x, c, x.len(), i).state);
    if i == 0 {
        array_split(arrays[0], states[0], x, y, c, d, None, None);
    } else {
        stacks_split(arrays, states, x, y, c, d, (i - 1) as nat);
        let first = stacks_run(arrays, states, x, c, x.len(), (i - 1) as nat);
        let second = stacks_run(arrays, later, y, d, y.len(), (i - 1) as nat);
        array_split(
            arrays[k],
            states[k],
            first.next,
            second.next,
            c,
            d,
            Some(first.head),
            Some(second.head),
        );
    }
}

// Heads and networks =========================================================

/// An activation treats two blocks as one.
proof fn lemma_activated_split<S: Scalar>(
    a: Act<S>,
    x: Seq<Seq<S>>,
    y: Seq<Seq<S>>,
    rows: nat,
)
    requires
        steady(a, rows),
        forall|f: int| 0 <= f < x.len() ==> (#[trigger] x[f]).len() == rows,
        forall|f: int| 0 <= f < y.len() ==> (#[trigger] y[f]).len() == rows,
    ensures
        activated_block(a, x + y) == activated_block(a, x) + activated_block(a, y),
{
    let whole = activated_block(a, x + y);
    let parts = activated_block(a, x) + activated_block(a, y);
    assert forall|f: int| 0 <= f < x.len() + y.len() implies #[trigger] whole[f] == parts[f] by {
        if f >= x.len() {
            lemma_frame_steady(a, y[f - x.len()], f);
            lemma_frame_steady(a, y[f - x.len()], f - x.len());
        }
    }
    assert(whole =~= parts);
}

/// The first `i` stages of a head in two blocks.
pub proof fn head_split<S: Scalar>(
    m: HeadModel<S>,
    h: Seq<Seq<Seq<S>>>,
    x: Seq<Seq<S>>,
    y: Seq<Seq<S>>,
    rows: nat,
    i: nat,
)
    requires
        head_steady(m, rows),
        head_state_fits(m, h),
        forall|f: int| 0 <= f < x.len() ==> (#[trigger] x[f]).len() == rows,
        forall|f: int| 0 <= f < y.len() ==> (#[trigger] y[f]).len() == rows,
        i <= m.stages.len(),
    ensures
        ({
            let g = head_rolled(m, h, x);
            let first = head_input(m, h, x, i);
            let second = head_input(m, g, y, i);
            &&& first.len() == x.len()
            &&& second.len() == y.len()
            &&& forall|f: int|
                0 <= f < x.len() ==> (#[trigger] first[f]).len() == stage_rows(m, rows, i as int)
            &&& forall|f: int|
                0 <= f < y.len() ==> (#[trigger] second[f]).len() == stage_rows(m, rows, i as int)
            &&& head_input(m, h, x + y, i) == first + second
        }),
    decreases i,
{
    if i > 0 {
        let k = i - 1;
        head_split(m, h, x, y, rows, k as nat);
        let g = head_rolled(m, h, x);
        let first = head_input(m, h, x, k as nat);
        let second = head_input(m, g, y, k as nat);
        let a = m.stages[k].0;
        assert(steady(a, stage_rows(m, rows, k)));
        lemma_activated_split(a, first, second, stage_rows(m, rows, k));
        assert(g[k] == rolled(h[k], head_shaped(m, h, x, k)));
        conv_split(
            m.stages[k].1,
            h[k],
            activated_block(a, first),
            activated_block(a, second),
        );
    }
}

/// The histories of a head after two blocks.
proof fn lemma_head_rolled_split<S: Scalar>(
    m: HeadModel<S>,
    h: Seq<Seq<Seq<S>>>,
    x: Seq<Seq<S>>,
    y: Seq<Seq<S>>,
    rows: nat,
)
    requires
        head_steady(m, rows),
        head_state_fits(m, h),
        forall|f: int| 0 <= f < x.len() ==> (#[trigger] x[f]).len() == rows,
        forall|f: int| 0 <= f < y.len() ==> (#[trigger] y[f]).len() == rows,
    ensures
        head_rolled(m, h, x + y) == head_rolled(m, head_rolled(m, h, x), y),
        head_state_fits(m, head_rolled(m, h, x)),
{
    let g = head_rolled(m, h, x);
    let whole = head_rolled(m, h, x + y);
    let parts = head_rolled(m, g, y);
    assert forall|i: int| 0 <= i < m.stages.len() implies #[trigger] whole[i] == parts[i]
        && g[i].len() == lookback(m.stages[i].1) by {
        head_split(m, h, x, y, rows, i as nat);
        let first = head_input(m, h, x, i as nat);
        let second = head_input(m, g, y, i as nat);
        let a = m.stages[i].0;
        assert(steady(a, stage_rows(m, rows, i)));
        lemma_activated_split(a, first, second, stage_rows(m, rows, i));
        conv_split(
            m.stages[i].1,
            h[i],
            activated_block(a, first),
            activated_block(a, second),
        );
    }
    assert(whole =~= parts);
}

/// A network in two blocks: what it gives for one block after another is what
/// it gives for both at once, and it remembers the same.
pub proof fn net_split<S: Scalar>(
    m: NetModel<S>,
    st: NetState<S>,
    x: Seq<Seq<S>>,
    y: Seq<Seq<S>>,
)
    requires
        net_steady(m),
        net_state_fits(m, st),
    ensures
        ({
            let whole = net_run(m, st, x + y);
            let first = net_run(m, st, x);
            let second = net_run(m, first.state, y);
            &&& whole.state == second.state
            &&& whole.output == first.output + second.output
            &&& first.output.len() == x.len()
            &&& second.output.len() == y.len()
            &&& net_state_fits(m, first.state)
        }),
    decreases m,
{
    let whole = net_run(m, st, x + y);
    let first = net_run(m, st, x);
    let second = net_run(m, first.state, y);
    let c = match m.condition {
        Some(cd) => net_run(*cd, *st.condition->0, x).output,
        None => x,
    };
    let d = match m.condition {
        Some(cd) => net_run(*cd, *first.state.condition->0, y).output,
        None => y,
    };
    if let Some(cd) = m.condition {
        net_split(*cd, *st.condition->0, x, y);
    }
    let arrays = m.arrays;
    let later = stacks_states(arrays, st.arrays, x, c);
    assert(first.state.arrays =~= later);
    assert forall|i: int| 0 <= i < arrays.len() implies #[trigger] whole.state.arrays[i]
        == second.state.arrays[i] && array_state_fits(arrays[i], later[i]) by {
        stacks_split(arrays, st.arrays, x, y, c, d, i as nat);
    }
    assert(whole.state.arrays =~= second.state.arrays);
    let i = (arrays.len() - 1) as nat;
    stacks_split(arrays, st.arrays, x, y, c, d, i);
    let a = stacks_run(arrays, st.arrays, x, c, x.len(), i).head;
    let b = stacks_run(arrays, later, y, d, y.len(), i).head;
    let u = scaled(m.scale, a);
    let v = scaled(m.scale, b);
    assert(scaled(m.scale, a + b) =~= u + v);
    if let Some(h) = m.head {
        let rows = arrays.last().head.outputs;
        lemma_stack_width(arrays, st.arrays, x, c, x.len(), i);
        lemma_stack_width(arrays, later, y, d, y.len(), i);
        head_split(h, st.head->0, u, v, rows, h.stages.len());
        lemma_head_rolled_split(h, st.head->0, u, v, rows);
    }
}

/// Every frame of the head of a stack has the channels of its convolution.
proof fn lemma_stack_width<S: Scalar>(
    arrays: Seq<ArrayModel<S>>,
    states: Seq<ArrayState<S>>,
    x: Seq<Seq<S>>,
    c: Seq<Seq<S>>,
    n: nat,
    i: nat,
)
    ensures
        ({
            let head = stacks_run(arrays, states, x, c, n, i).head;
            forall|f: int|
                0 <= f < head.len() ==> (#[trigger] head[f]).len()
                    == arrays[i as int].head.outputs
        }),
{
}

} // verus!
