//! A network forgets: after as many frames as it looks back, nothing that it
//! remembered before shows any more.

use crate::laws::blocks::{array_state_fits, head_state_fits, net_state_fits, stack_histories};
use crate::num::Scalar;
use crate::pure::activations::activated_block;
use crate::pure::conv1d::{dilated_block, lemma_same_signal, lookback, rolled, Dilated};
use crate::pure::layer::{conv_inputs, layer_run, LayerModel};
use crate::pure::layer_array::{
    added, array_reach, array_run, head_start, layers_reach, stack_head, stack_input, stack_run,
    ArrayModel, ArrayState,
};
use crate::pure::net::{net_reach, net_run, scaled, stacks_reach, stacks_run, NetModel, NetState};
use crate::pure::nn::affine_block;
use crate::pure::post_head::{head_input, head_rolled, stages_reach, HeadModel};
use vstd::arithmetic::mul::*;
use vstd::prelude::*;

verus! {

/// Two blocks agree from frame `k` on.
pub open spec fn alike_from<S>(a: Seq<Seq<S>>, b: Seq<Seq<S>>, k: int) -> bool {
    &&& a.len() == b.len()
    &&& forall|f: int| k <= f < a.len() ==> #[trigger] a[f] == b[f]
}

/// Every convolution of a network has a tap.
pub open spec fn net_tapped<S>(m: NetModel<S>) -> bool
    decreases m,
{
    &&& m.arrays.len() > 0
    &&& forall|i: int| 0 <= i < m.arrays.len() ==> array_tapped(#[trigger] m.arrays[i])
    &&& m.head matches Some(h) ==> head_tapped(h)
    &&& m.condition matches Some(cd) ==> net_tapped(*cd)
}

/// Every convolution of a stack has a tap.
pub open spec fn array_tapped<S>(m: ArrayModel<S>) -> bool {
    &&& m.head.weight.len() >= 1
    &&& forall|i: int| 0 <= i < m.layers.len() ==> (#[trigger] m.layers[i]).conv.weight.len() >= 1
}

/// Every convolution of a head has a tap.
pub open spec fn head_tapped<S>(m: HeadModel<S>) -> bool {
    forall|i: int| 0 <= i < m.stages.len() ==> (#[trigger] m.stages[i]).1.weight.len() >= 1
}

/// A convolution forgets.
proof fn lemma_conv_forgets<S: Scalar>(
    m: Dilated<S>,
    g: Seq<Seq<S>>,
    h: Seq<Seq<S>>,
    x: Seq<Seq<S>>,
    y: Seq<Seq<S>>,
    k: int,
)
    requires
        m.weight.len() >= 1,
        g.len() == lookback(m),
        h.len() == lookback(m),
        k >= 0,
        alike_from(x, y, k),
    ensures
        lookback(m) >= 0,
        alike_from(dilated_block(m, g, x), dilated_block(m, h, y), k + lookback(m)),
        x.len() >= k + lookback(m) ==> rolled(g, x) == rolled(h, y),
{
    let back = lookback(m);
    let a = dilated_block(m, g, x);
    let b = dilated_block(m, h, y);
    assert forall|f: int| k + back <= f < a.len() implies #[trigger] a[f] == b[f] by {
        assert forall|o: int| 0 <= o < m.outputs implies #[trigger] a[f][o] == b[f][o] by {
            lemma_same_signal(m, g + x, h + y, back + f, o, m.weight.len());
        }
        assert(a[f] =~= b[f]);
    }
    if x.len() >= k + back {
        assert(rolled(g, x) =~= rolled(h, y));
    }
}

/// A layer forgets.
proof fn lemma_layer_forgets<S: Scalar>(
    m: LayerModel<S>,
    g: Seq<Seq<S>>,
    h: Seq<Seq<S>>,
    x: Seq<Seq<S>>,
    y: Seq<Seq<S>>,
    c: Seq<Seq<S>>,
    d: Seq<Seq<S>>,
    k: int,
)
    requires
        m.conv.weight.len() >= 1,
        g.len() == lookback(m.conv),
        h.len() == lookback(m.conv),
        k >= 0,
        alike_from(x, y, k),
        alike_from(c, d, k),
        c.len() == x.len(),
    ensures
        ({
            let n = x.len();
            let p = layer_run(m, g, x, c, n);
            let q = layer_run(m, h, y, d, n);
            &&& lookback(m.conv) >= 0
            &&& alike_from(p.skip, q.skip, k + lookback(m.conv))
            &&& alike_from(p.next, q.next, k + lookback(m.conv))
            &&& p.next.len() == n
            &&& n >= k + lookback(m.conv) ==> p.history == q.history
        }),
{
    let n = x.len();
    let u = conv_inputs(m, x, c, n);
    let v = conv_inputs(m, y, d, n);
    lemma_conv_forgets(m.conv, g, h, u, v, k);
    let p = layer_run(m, g, x, c, n);
    let q = layer_run(m, h, y, d, n);
    let from = k + lookback(m.conv);
    let a = dilated_block(m.conv, g, u);
    let b = dilated_block(m.conv, h, v);
    assert forall|f: int| from <= f < n implies #[trigger] p.hidden[f]
        == q.hidden[f] by {
        assert(a[f] == b[f]);
        assert(c[f] == d[f]);
    }
    assert forall|f: int| from <= f < n implies #[trigger] p.skip[f] == q.skip[f] by {
        assert(p.hidden[f] == q.hidden[f]);
        assert(c[f] == d[f]);
    }
    assert forall|f: int| from <= f < n implies #[trigger] p.next[f] == q.next[f] by {
        assert(p.hidden[f] == q.hidden[f]);
        assert(c[f] == d[f]);
        assert(x[f] == y[f]);
    }
}

/// The layers of a stack forget: what the first `i` layers make of a block.
proof fn lemma_layers_forget<S: Scalar>(
    layers: Seq<LayerModel<S>>,
    g: Seq<Seq<Seq<S>>>,
    h: Seq<Seq<Seq<S>>>,
    x: Seq<Seq<S>>,
    y: Seq<Seq<S>>,
    c: Seq<Seq<S>>,
    d: Seq<Seq<S>>,
    s: Seq<Seq<S>>,
    t: Seq<Seq<S>>,
    k: int,
    i: nat,
)
    requires
        forall|j: int| 0 <= j < layers.len() ==> (#[trigger] layers[j]).conv.weight.len() >= 1,
        g.len() == layers.len(),
        h.len() == layers.len(),
        forall|j: int|
            0 <= j < layers.len() ==> (#[trigger] g[j]).len() == lookback(layers[j].conv),
        forall|j: int|
            0 <= j < layers.len() ==> (#[trigger] h[j]).len() == lookback(layers[j].conv),
        k >= 0,
        alike_from(x, y, k),
        alike_from(c, d, k),
        alike_from(s, t, k),
        c.len() == x.len(),
        s.len() == x.len(),
        i <= layers.len(),
    ensures
        ({
            let n = x.len();
            let from = k + layers_reach(layers.take(i as int));
            let a = stack_input(layers, g, x, c, n, i);
            let b = stack_input(layers, h, y, d, n, i);
            let p = stack_head(layers, g, x, c, n, s, i);
            let q = stack_head(layers, h, y, d, n, t, i);
            &&& layers_reach(layers.take(i as int)) >= 0
            &&& a.len() == n
            &&& p.len() == n
            &&& alike_from(a, b, from)
            &&& alike_from(p, q, from)
            &&& forall|j: int|
                0 <= j < i && n >= from ==> #[trigger] stack_histories(layers, g, x, c)[j]
                    == stack_histories(layers, h, y, d)[j]
        }),
    decreases i,
{
    if i > 0 {
        let j = (i - 1) as nat;
        lemma_layers_forget(layers, g, h, x, y, c, d, s, t, k, j);
        let n = x.len();
        assert(layers.take(i as int).drop_last() =~= layers.take(i - 1));
        assert(layers.take(i as int).last() == layers[i - 1]);
        let from = k + layers_reach(layers.take(i - 1));
        let m = layers[i - 1];
        let a = stack_input(layers, g, x, c, n, j);
        let b = stack_input(layers, h, y, d, n, j);
        lemma_layer_forgets(m, g[i - 1], h[i - 1], a, b, c, d, from);
        let p = stack_head(layers, g, x, c, n, s, j);
        let q = stack_head(layers, h, y, d, n, t, j);
        let u = stack_run(layers, g, x, c, n, i - 1).skip;
        let v = stack_run(layers, h, y, d, n, i - 1).skip;
        let later = from + lookback(m.conv);
        assert forall|f: int| later <= f < n implies #[trigger] added(p, u)[f]
            == added(q, v)[f] by {
            assert(p[f] == q[f]);
            assert(u[f] == v[f]);
        }
        let gs = stack_histories(layers, g, x, c);
        let hs = stack_histories(layers, h, y, d);
        assert forall|l: int| 0 <= l < i && n >= later implies #[trigger] gs[l] == hs[l] by {
            if l == i - 1 {
                assert(gs[l] == stack_run(layers, g, x, c, n, l).history);
                assert(hs[l] == stack_run(layers, h, y, d, n, l).history);
            }
        }
    }
}

/// A stack forgets.
proof fn lemma_array_forgets<S: Scalar>(
    m: ArrayModel<S>,
    st: ArrayState<S>,
    su: ArrayState<S>,
    x: Seq<Seq<S>>,
    y: Seq<Seq<S>>,
    c: Seq<Seq<S>>,
    d: Seq<Seq<S>>,
    p: Option<Seq<Seq<S>>>,
    q: Option<Seq<Seq<S>>>,
    k: int,
)
    requires
        array_tapped(m),
        array_state_fits(m, st),
        array_state_fits(m, su),
        k >= 0,
        alike_from(x, y, k),
        alike_from(c, d, k),
        c.len() == x.len(),
        match (p, q) {
            (Some(a), Some(b)) => alike_from(a, b, k) && a.len() == x.len(),
            (None, None) => true,
            _ => false,
        },
    ensures
        ({
            let n = x.len();
            let from = k + array_reach(m);
            let a = array_run(m, st, x, c, p, n);
            let b = array_run(m, su, y, d, q, n);
            &&& array_reach(m) >= 0
            &&& a.next.len() == n
            &&& a.head.len() == n
            &&& alike_from(a.next, b.next, from)
            &&& alike_from(a.head, b.head, from)
            &&& n >= from ==> a.state == b.state
        }),
{
    let n = x.len();
    let u = affine_block(m.rechannel, x, n);
    let v = affine_block(m.rechannel, y, n);
    let s = head_start(m.head.inputs, p, n);
    let t = head_start(m.head.inputs, q, n);
    let layers = m.layers;
    assert forall|f: int| k <= f < n implies #[trigger] u[f] == v[f] by {
        assert(x[f] == y[f]);
    }
    assert forall|f: int| k <= f < n implies #[trigger] s[f] == t[f] by {
        if p is Some {
            assert((p->0)[f] == (q->0)[f]);
        }
    }
    lemma_layers_forget(layers, st.layers, su.layers, u, v, c, d, s, t, k, layers.len());
    assert(layers.take(layers.len() as int) =~= layers);
    let mid = k + layers_reach(layers);
    let e = stack_head(layers, st.layers, u, c, n, s, layers.len());
    let f = stack_head(layers, su.layers, v, d, n, t, layers.len());
    lemma_conv_forgets(m.head, st.head, su.head, e, f, mid);
    let a = array_run(m, st, x, c, p, n);
    let b = array_run(m, su, y, d, q, n);
    if n >= k + array_reach(m) {
        let gs = stack_histories(layers, st.layers, u, c);
        let hs = stack_histories(layers, su.layers, v, d);
        assert forall|i: int| 0 <= i < layers.len() implies #[trigger] a.state.layers[i]
            == b.state.layers[i] by {
            assert(gs[i] == hs[i]);
        }
        assert(a.state =~= b.state);
    }
}

/// The stacks forget: what stack `i` makes of a block.
proof fn lemma_stacks_forget<S: Scalar>(
    arrays: Seq<ArrayModel<S>>,
    st: Seq<ArrayState<S>>,
    su: Seq<ArrayState<S>>,
    x: Seq<Seq<S>>,
    c: Seq<Seq<S>>,
    d: Seq<Seq<S>>,
    k: int,
    i: nat,
)
    requires
        forall|j: int| 0 <= j < arrays.len() ==> array_tapped(#[trigger] arrays[j]),
        st.len() == arrays.len(),
        su.len() == arrays.len(),
        forall|j: int| 0 <= j < arrays.len() ==> array_state_fits(arrays[j], #[trigger] st[j]),
        forall|j: int| 0 <= j < arrays.len() ==> array_state_fits(arrays[j], #[trigger] su[j]),
        k >= 0,
        alike_from(c, d, k),
        c.len() == x.len(),
        i < arrays.len(),
    ensures
        ({
            let n = x.len();
            let from = k + stacks_reach(arrays.take(i as int + 1));
            let a = stacks_run(arrays, st, x, c, n, i);
            let b = stacks_run(arrays, su, x, d, n, i);
            &&& stacks_reach(arrays.take(i as int + 1)) >= 0
            &&& a.next.len() == n
            &&& a.head.len() == n
            &&& alike_from(a.next, b.next, from)
            &&& alike_from(a.head, b.head, from)
            &&& n >= from ==> a.state == b.state
        }),
    decreases i,
{
    let n = x.len();
    let l = i as int;
    assert(arrays.take(l + 1).drop_last() =~= arrays.take(l));
    assert(arrays.take(l + 1).last() == arrays[l]);
    if i == 0 {
        assert(stacks_reach(arrays.take(0)) == 0);
        lemma_array_forgets(arrays[0], st[0], su[0], x, x, c, d, None, None, k);
    } else {
        let j = (i - 1) as nat;
        lemma_stacks_forget(arrays, st, su, x, c, d, k, j);
        assert(arrays.take(j as int + 1) =~= arrays.take(l));
        let from = k + stacks_reach(arrays.take(l));
        let a = stacks_run(arrays, st, x, c, n, j);
        let b = stacks_run(arrays, su, x, d, n, j);
        lemma_array_forgets(
            arrays[l],
            st[l],
            su[l],
            a.next,
            b.next,
            c,
            d,
            Some(a.head),
            Some(b.head),
            from,
        );
    }
}

/// A later stack looks back at least as far as an earlier one.
proof fn lemma_stacks_reach_grows<S: Scalar>(arrays: Seq<ArrayModel<S>>, i: int, j: int)
    requires
        forall|k: int| 0 <= k < arrays.len() ==> array_tapped(#[trigger] arrays[k]),
        0 <= i <= j <= arrays.len(),
    ensures
        0 <= stacks_reach(arrays.take(i)) <= stacks_reach(arrays.take(j)),
    decreases j,
{
    if j == 0 {
        assert(arrays.take(0).len() == 0);
    } else if i < j {
        lemma_stacks_reach_grows(arrays, i, j - 1);
        assert(arrays.take(j).drop_last() =~= arrays.take(j - 1));
        assert(arrays.take(j).last() == arrays[j - 1]);
        lemma_array_reach(arrays[j - 1]);
    } else {
        lemma_stacks_reach_grows(arrays, i - 1, i - 1);
        assert(arrays.take(j).drop_last() =~= arrays.take(j - 1));
        assert(arrays.take(j).last() == arrays[j - 1]);
        lemma_array_reach(arrays[j - 1]);
    }
}

/// A stack does not look ahead.
proof fn lemma_array_reach<S: Scalar>(m: ArrayModel<S>)
    requires
        array_tapped(m),
    ensures
        array_reach(m) >= 0,
{
    lemma_mul_nonnegative(m.head.weight.len() - 1, m.head.dilation as int);
    lemma_layers_reach(m.layers, m.layers.len() as int);
    assert(m.layers.take(m.layers.len() as int) =~= m.layers);
}

/// Layers do not look ahead.
proof fn lemma_layers_reach<S: Scalar>(layers: Seq<LayerModel<S>>, i: int)
    requires
        forall|j: int| 0 <= j < layers.len() ==> (#[trigger] layers[j]).conv.weight.len() >= 1,
        0 <= i <= layers.len(),
    ensures
        layers_reach(layers.take(i)) >= 0,
    decreases i,
{
    if i > 0 {
        lemma_layers_reach(layers, i - 1);
        assert(layers.take(i).drop_last() =~= layers.take(i - 1));
        assert(layers.take(i).last() == layers[i - 1]);
        lemma_mul_nonnegative(
            layers[i - 1].conv.weight.len() - 1,
            layers[i - 1].conv.dilation as int,
        );
    }
}

/// A head forgets: what its first `i` stages make of a block.
proof fn lemma_head_forgets<S: Scalar>(
    m: HeadModel<S>,
    g: Seq<Seq<Seq<S>>>,
    h: Seq<Seq<Seq<S>>>,
    x: Seq<Seq<S>>,
    y: Seq<Seq<S>>,
    k: int,
    i: nat,
)
    requires
        head_tapped(m),
        head_state_fits(m, g),
        head_state_fits(m, h),
        k >= 0,
        alike_from(x, y, k),
        i <= m.stages.len(),
    ensures
        ({
            let from = k + stages_reach(m.stages.take(i as int));
            let a = head_input(m, g, x, i);
            let b = head_input(m, h, y, i);
            &&& stages_reach(m.stages.take(i as int)) >= 0
            &&& a.len() == x.len()
            &&& alike_from(a, b, from)
            &&& forall|j: int|
                0 <= j < i && x.len() >= from ==> #[trigger] head_rolled(m, g, x)[j]
                    == head_rolled(m, h, y)[j]
        }),
    decreases i,
{
    if i > 0 {
        let j = (i - 1) as nat;
        let l = i - 1;
        lemma_head_forgets(m, g, h, x, y, k, j);
        assert(m.stages.take(i as int).drop_last() =~= m.stages.take(l));
        assert(m.stages.take(i as int).last() == m.stages[l]);
        let from = k + stages_reach(m.stages.take(l));
        let a = head_input(m, g, x, j);
        let b = head_input(m, h, y, j);
        let u = activated_block(m.stages[l].0, a);
        let v = activated_block(m.stages[l].0, b);
        assert forall|f: int| from <= f < u.len() implies #[trigger] u[f] == v[f] by {
            assert(a[f] == b[f]);
        }
        lemma_conv_forgets(m.stages[l].1, g[l], h[l], u, v, from);
        let gs = head_rolled(m, g, x);
        let hs = head_rolled(m, h, y);
        let later = from + lookback(m.stages[l].1);
        assert forall|e: int| 0 <= e < i && x.len() >= later implies #[trigger] gs[e] == hs[e] by {
            if e == l {
                assert(gs[e] == rolled(g[e], u));
                assert(hs[e] == rolled(h[e], v));
            }
        }
    }
}

/// A network forgets. Whatever it remembered, the frames of a block from the
/// one on that its reach counts are the same, and after a block of that many
/// frames it remembers the same.
pub proof fn net_forgets<S: Scalar>(
    m: NetModel<S>,
    st: NetState<S>,
    su: NetState<S>,
    x: Seq<Seq<S>>,
)
    requires
        net_tapped(m),
        net_state_fits(m, st),
        net_state_fits(m, su),
    ensures
        net_reach(m) >= 1,
        net_run(m, st, x).output.len() == x.len(),
        alike_from(net_run(m, st, x).output, net_run(m, su, x).output, net_reach(m) - 1),
        x.len() >= net_reach(m) - 1 ==> net_run(m, st, x).state == net_run(m, su, x).state,
    decreases m,
{
    let a = net_run(m, st, x);
    let b = net_run(m, su, x);
    let n = x.len();
    let arrays = m.arrays;
    let c = match m.condition {
        Some(cd) => net_run(*cd, *st.condition->0, x).output,
        None => x,
    };
    let d = match m.condition {
        Some(cd) => net_run(*cd, *su.condition->0, x).output,
        None => x,
    };
    let k = match m.condition {
        Some(cd) => net_reach(*cd) - 1,
        None => 0,
    };
    if let Some(cd) = m.condition {
        net_forgets(*cd, *st.condition->0, *su.condition->0, x);
    }
    let i = (arrays.len() - 1) as nat;
    lemma_stacks_forget(arrays, st.arrays, su.arrays, x, c, d, k, i);
    assert(arrays.take(i as int + 1) =~= arrays);
    let p = stacks_run(arrays, st.arrays, x, c, n, i).head;
    let q = stacks_run(arrays, su.arrays, x, d, n, i).head;
    let u = scaled(m.scale, p);
    let v = scaled(m.scale, q);
    let mid = k + stacks_reach(arrays);
    assert forall|f: int| mid <= f < n implies #[trigger] u[f] == v[f] by {
        assert(p[f] == q[f]);
    }
    if n >= mid {
        assert forall|j: int| 0 <= j < arrays.len() implies #[trigger] a.state.arrays[j]
            == b.state.arrays[j] by {
            lemma_stacks_forget(arrays, st.arrays, su.arrays, x, c, d, k, j as nat);
            lemma_stacks_reach_grows(arrays, j + 1, arrays.len() as int);
            assert(arrays.take(arrays.len() as int) =~= arrays);
        }
        assert(a.state.arrays =~= b.state.arrays);
    }
    if let Some(h) = m.head {
        lemma_head_forgets(h, st.head->0, su.head->0, u, v, mid, h.stages.len());
        assert(h.stages.take(h.stages.len() as int) =~= h.stages);
        if n >= net_reach(m) - 1 {
            assert(head_rolled(h, st.head->0, u) =~= head_rolled(h, su.head->0, v));
        }
    }
}

} // verus!
