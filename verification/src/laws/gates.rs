//! What a layer makes of a frame, channel by channel.

use crate::num::Scalar;
use crate::pure::activations::{activated, Act};
use crate::pure::conv1d::{dilated_block, rolled};
use crate::pure::film::{maybe_modulated, modulated, Modulation};
use crate::pure::layer::{
    conv_inputs, gated_frame, layer_run, residual, summed, upper_act, z_rows, GatingMode,
    LayerModel,
};
use crate::pure::mat::cell;
use crate::pure::nn::{affine, mac, Affine};
use vstd::prelude::*;

verus! {

// Layers without modulations =================================================

/// A layer is not modulated anywhere.
pub open spec fn plain<S>(m: LayerModel<S>) -> bool {
    &&& m.conv_pre is None
    &&& m.conv_post is None
    &&& m.mixin_pre is None
    &&& m.mixin_post is None
    &&& m.act_pre is None
    &&& m.act_post is None
    &&& m.layer1x1_post is None
    &&& m.head1x1_post is None
}

/// The frames of the input, as many channels as the layer has.
pub open spec fn inputs_of_layer<S>(m: LayerModel<S>, x: Seq<Seq<S>>, n: nat) -> Seq<Seq<S>> {
    Seq::new(n, |f: int| Seq::new(m.conv.inputs, |r: int| x[f][r]))
}

/// Row `r` of frame `f` before the activation: what the convolution makes of the
/// input, and what the condition contributes.
pub open spec fn row_before<S: Scalar>(
    m: LayerModel<S>,
    h: Seq<Seq<S>>,
    x: Seq<Seq<S>>,
    c: Seq<Seq<S>>,
    n: nat,
    f: int,
    r: int,
) -> S {
    dilated_block(m.conv, h, inputs_of_layer(m, x, n))[f][r].add_spec(
        mac(m.mixin.offset[r], m.mixin.weight[r], c[f], m.mixin.inputs),
    )
}

/// The shapes of a layer and a block agree.
pub open spec fn block_fits<S: Scalar>(m: LayerModel<S>, x: Seq<Seq<S>>, n: nat) -> bool {
    &&& m.conv.outputs == z_rows(m.gating, m.bottleneck)
    &&& m.mixin.outputs == z_rows(m.gating, m.bottleneck)
    &&& forall|f: int| 0 <= f < n ==> m.conv.inputs <= (#[trigger] x[f]).len()
}

/// What the convolution reads of a block that is not modulated.
proof fn lemma_plain_inputs<S: Scalar>(
    m: LayerModel<S>,
    x: Seq<Seq<S>>,
    c: Seq<Seq<S>>,
    n: nat,
)
    requires
        m.conv_pre is None,
        block_fits(m, x, n),
    ensures
        conv_inputs(m, x, c, n) == inputs_of_layer(m, x, n),
{
    assert forall|f: int| 0 <= f < n implies #[trigger] conv_inputs(m, x, c, n)[f]
        == inputs_of_layer(m, x, n)[f] by {
        assert(m.conv.inputs <= x[f].len());
        assert(x[f].take(m.conv.inputs as int) =~= inputs_of_layer(m, x, n)[f]);
    }
    assert(conv_inputs(m, x, c, n) =~= inputs_of_layer(m, x, n));
}

/// A layer that does not gate gives each row its own activation; rows are counted
/// through the frames of the block, one after the other.
pub proof fn ungated_layers_activate_each_row<S: Scalar>(
    m: LayerModel<S>,
    h: Seq<Seq<S>>,
    x: Seq<Seq<S>>,
    c: Seq<Seq<S>>,
    n: nat,
    f: int,
    r: int,
)
    requires
        plain(m),
        m.gating == GatingMode::Ungated,
        block_fits(m, x, n),
        0 <= f < n,
        0 <= r < m.bottleneck,
    ensures
        layer_run(m, h, x, c, n).hidden[f].len() == m.bottleneck,
        layer_run(m, h, x, c, n).hidden[f][r] == activated(
            m.act,
            row_before(m, h, x, c, n, f, r),
            f * m.bottleneck + r,
        ),
{
    lemma_plain_inputs(m, x, c, n);
}

/// In a gated layer a channel is the product of the value of the layer's own
/// activation at its row and the value of the layer's own secondary activation
/// at the row of the upper half.
pub proof fn gated_layers_multiply_their_pair<S: Scalar>(
    m: LayerModel<S>,
    second: Act<S>,
    h: Seq<Seq<S>>,
    x: Seq<Seq<S>>,
    c: Seq<Seq<S>>,
    n: nat,
    f: int,
    r: int,
)
    requires
        plain(m),
        m.gating == GatingMode::Gated,
        m.secondary == Some(second),
        block_fits(m, x, n),
        0 <= f < n,
        0 <= r < m.bottleneck,
    ensures
        layer_run(m, h, x, c, n).hidden[f][r] == activated(
            m.act,
            row_before(m, h, x, c, n, f, r),
            r,
        ).mul_spec(
            activated(second, row_before(m, h, x, c, n, f, m.bottleneck + r), r),
        ),
{
    lemma_plain_inputs(m, x, c, n);
}

/// Where both activations of a gated layer are the same and both rows hold the
/// same, the channel is a square.
pub proof fn equal_pairs_give_squares<S: Scalar>(
    m: LayerModel<S>,
    h: Seq<Seq<S>>,
    x: Seq<Seq<S>>,
    c: Seq<Seq<S>>,
    n: nat,
    f: int,
    r: int,
)
    requires
        plain(m),
        m.gating == GatingMode::Gated,
        m.secondary == Some(m.act),
        block_fits(m, x, n),
        0 <= f < n,
        0 <= r < m.bottleneck,
        row_before(m, h, x, c, n, f, r) == row_before(m, h, x, c, n, f, m.bottleneck + r),
    ensures
        ({
            let y = activated(m.act, row_before(m, h, x, c, n, f, r), r);
            layer_run(m, h, x, c, n).hidden[f][r] == y.mul_spec(y)
        }),
{
    gated_layers_multiply_their_pair(m, m.act, h, x, c, n, f, r);
}

/// Where the secondary activation of a gated layer gives a number that makes every
/// product zero, the channel is zero.
pub proof fn closed_gates_give_zero<S: Scalar>(
    m: LayerModel<S>,
    second: Act<S>,
    h: Seq<Seq<S>>,
    x: Seq<Seq<S>>,
    c: Seq<Seq<S>>,
    n: nat,
    f: int,
    r: int,
)
    requires
        plain(m),
        m.gating == GatingMode::Gated,
        m.secondary == Some(second),
        block_fits(m, x, n),
        0 <= f < n,
        0 <= r < m.bottleneck,
        ({
            let closed = activated(second, row_before(m, h, x, c, n, f, m.bottleneck + r), r);
            forall|y: S| #[trigger] y.mul_spec(closed) == S::zero_spec()
        }),
    ensures
        layer_run(m, h, x, c, n).hidden[f][r] == S::zero_spec(),
{
    gated_layers_multiply_their_pair(m, second, h, x, c, n, f, r);
}

/// In a blended layer a channel lies between its row and its activation: the
/// value of the secondary activation at the row of the upper half is the share of
/// the activation, and what is left of one is the share of the row itself.
pub proof fn blended_layers_mix_their_pair<S: Scalar>(
    m: LayerModel<S>,
    second: Act<S>,
    h: Seq<Seq<S>>,
    x: Seq<Seq<S>>,
    c: Seq<Seq<S>>,
    n: nat,
    f: int,
    r: int,
)
    requires
        plain(m),
        m.gating == GatingMode::Blended,
        m.secondary == Some(second),
        block_fits(m, x, n),
        0 <= f < n,
        0 <= r < m.bottleneck,
    ensures
        ({
            let low = row_before(m, h, x, c, n, f, r);
            let share = activated(second, row_before(m, h, x, c, n, f, m.bottleneck + r), r);
            let rest = S::literal_spec(1, 0).sub_spec(share);
            layer_run(m, h, x, c, n).hidden[f][r] == share.mul_spec(
                activated(m.act, low, r),
            ).add_spec(rest.mul_spec(low))
        }),
{
    lemma_plain_inputs(m, x, c, n);
}

/// A layer without a secondary activation uses the logistic function.
pub proof fn the_second_activation_is_logistic_by_default<S: Scalar>(
    m: LayerModel<S>,
    h: Seq<Seq<S>>,
    x: Seq<Seq<S>>,
    c: Seq<Seq<S>>,
    n: nat,
)
    requires
        m.secondary is None,
    ensures
        layer_run(m, h, x, c, n) == layer_run(
            (LayerModel { secondary: Some(Act::Sigmoid), ..m }),
            h,
            x,
            c,
            n,
        ),
{
    let d = LayerModel { secondary: Some(Act::Sigmoid), ..m };
    assert(upper_act(m) == upper_act(d));
    let a = layer_run(m, h, x, c, n);
    let b = layer_run(d, h, x, c, n);
    assert(conv_inputs(m, x, c, n) =~= conv_inputs(d, x, c, n));
    assert(a.hidden =~= b.hidden) by {
        assert forall|f: int| 0 <= f < n implies #[trigger] a.hidden[f] == b.hidden[f] by {
            let y = dilated_block(m.conv, h, conv_inputs(m, x, c, n))[f];
            let z = summed(m, y, c[f]);
            assert(z == summed(d, y, c[f]));
            assert(gated_frame(m, z, f) =~= gated_frame(
                d,
                z,
                f,
            ));
        }
    }
    assert(a.skip =~= b.skip);
    assert forall|f: int| 0 <= f < n implies #[trigger] a.next[f] == b.next[f] by {
        assert(a.hidden[f] == b.hidden[f]);
        assert(a.next[f] =~= b.next[f]);
    }
    assert(a.next =~= b.next);
}

/// A projection of the top channels of a frame, at one output.
pub open spec fn projected<S: Scalar>(p: Affine<S>, t: Seq<S>, o: int) -> S {
    mac(p.offset[o], p.weight[o], t, p.inputs)
}

/// What a layer gives on: its input and, where there is a projection, what that
/// makes of the activated channels.
pub proof fn layers_add_to_their_input<S: Scalar>(
    m: LayerModel<S>,
    h: Seq<Seq<S>>,
    x: Seq<Seq<S>>,
    c: Seq<Seq<S>>,
    n: nat,
    f: int,
    i: int,
)
    requires
        plain(m),
        0 <= f < n,
        0 <= i < m.channels,
        m.layer1x1 matches Some(p) ==> p.outputs == m.channels,
    ensures
        ({
            let run = layer_run(m, h, x, c, n);
            &&& run.next.len() == n
            &&& run.next[f].len() == m.channels
            &&& m.layer1x1 is None ==> run.next[f][i] == x[f][i]
            &&& m.layer1x1 matches Some(p) ==> run.next[f][i] == x[f][i].add_spec(
                projected(p, run.hidden[f], i),
            )
        }),
{
}

/// What a layer gives to the head: the activated channels, or what the projection
/// makes of them.
pub proof fn layers_show_their_activation<S: Scalar>(
    m: LayerModel<S>,
    h: Seq<Seq<S>>,
    x: Seq<Seq<S>>,
    c: Seq<Seq<S>>,
    n: nat,
    f: int,
    o: int,
)
    requires
        plain(m),
        0 <= f < n,
    ensures
        ({
            let run = layer_run(m, h, x, c, n);
            &&& run.skip.len() == n
            &&& m.head1x1 is None ==> run.skip[f] == run.hidden[f]
            &&& m.head1x1 matches Some(p) ==> run.skip[f].len() == p.outputs && (0 <= o < p.outputs
                ==> run.skip[f][o] == projected(p, run.hidden[f], o))
        }),
{
}

/// A layer remembers the latest frames of its input.
pub proof fn layers_remember_their_input<S: Scalar>(
    m: LayerModel<S>,
    h: Seq<Seq<S>>,
    x: Seq<Seq<S>>,
    c: Seq<Seq<S>>,
    n: nat,
)
    requires
        plain(m),
        block_fits(m, x, n),
    ensures
        layer_run(m, h, x, c, n).history.len() == h.len(),
        forall|k: int|
            0 <= k < h.len() ==> #[trigger] layer_run(m, h, x, c, n).history[k] == if k + n
                < h.len() {
                h[k + n]
            } else {
                inputs_of_layer(m, x, n)[k + n - h.len()]
            },
{
    lemma_plain_inputs(m, x, c, n);
    assert(layer_run(m, h, x, c, n).history == rolled(h, inputs_of_layer(m, x, n)));
}

// Modulations ================================================================

/// `y` is frame `t` with its top channels multiplied by amounts of a condition,
/// and with as many more amounts added where the modulation shifts.
pub open spec fn is_modulated<S: Scalar>(
    m: Modulation<S>,
    t: Seq<S>,
    c: Seq<S>,
    y: Seq<S>,
) -> bool {
    &&& y.len() == t.len()
    &&& forall|r: int|
        0 <= r < y.len() ==> #[trigger] y[r] == if r >= m.dim {
            t[r]
        } else if m.shift {
            t[r].mul_spec(projected(m.conv, c, r)).add_spec(projected(m.conv, c, m.dim + r))
        } else {
            t[r].mul_spec(projected(m.conv, c, r))
        }
}

/// `y` is frame `t`, modulated where there is a modulation.
pub open spec fn is_modulated_if<S: Scalar>(
    m: Option<Modulation<S>>,
    t: Seq<S>,
    c: Seq<S>,
    y: Seq<S>,
) -> bool {
    match m {
        Some(m) => is_modulated(m, t, c, y),
        None => y == t,
    }
}

/// A modulation has an amount for each of its channels, and another where it
/// shifts.
pub open spec fn has_amounts<S>(m: Option<Modulation<S>>) -> bool {
    m matches Some(m) ==> m.conv.outputs == if m.shift {
        2 * m.dim
    } else {
        m.dim
    }
}

/// The modulations of a layer have their amounts.
pub open spec fn all_amounts<S>(m: LayerModel<S>) -> bool {
    &&& has_amounts(m.conv_pre)
    &&& has_amounts(m.conv_post)
    &&& has_amounts(m.mixin_pre)
    &&& has_amounts(m.mixin_post)
    &&& has_amounts(m.act_pre)
    &&& has_amounts(m.act_post)
    &&& has_amounts(m.layer1x1_post)
    &&& has_amounts(m.head1x1_post)
}

/// The frames that a layer makes on its way.
pub struct Way<S> {
    /// What the convolution makes, after its modulation.
    pub conv: Seq<S>,
    /// The condition that is mixed in, after its modulation.
    pub heard: Seq<S>,
    /// What the condition contributes, after its modulation.
    pub mixed: Seq<S>,
    /// The sum of both.
    pub sum: Seq<S>,
    /// The sum after its modulation.
    pub before: Seq<S>,
    /// The sum after the activation.
    pub active: Seq<S>,
    /// What the projection to the residual makes.
    pub residual: Seq<S>,
}

/// Channel `r` of an activated frame: its own activation, with the value of the
/// upper half as factor or as share.
pub open spec fn is_active<S: Scalar>(
    m: LayerModel<S>,
    second: Act<S>,
    z: Seq<S>,
    f: int,
    r: int,
    y: S,
) -> bool {
    match m.gating {
        GatingMode::Ungated => y == activated(m.act, z[r], f * z.len() + r),
        GatingMode::Gated => y == if r < m.bottleneck {
            activated(m.act, z[r], r).mul_spec(activated(second, z[m.bottleneck + r], r))
        } else {
            z[r]
        },
        GatingMode::Blended => y == if r < m.bottleneck {
            activated(second, z[m.bottleneck + r], r).mul_spec(
                activated(m.act, z[r], r),
            ).add_spec(
                S::literal_spec(1, 0).sub_spec(
                    activated(second, z[m.bottleneck + r], r),
                ).mul_spec(z[r]),
            )
        } else {
            z[r]
        },
    }
}

/// The frames on the way of frame `f` of a block: each modulation stands where its
/// name says, and only a blended layer modulates its residual.
pub open spec fn is_way<S: Scalar>(
    m: LayerModel<S>,
    second: Act<S>,
    y: Seq<S>,
    c: Seq<S>,
    f: int,
    w: Way<S>,
    hidden: Seq<S>,
) -> bool {
    &&& is_modulated_if(m.conv_post, y, c, w.conv)
    &&& m.mixin_pre is None ==> w.heard == c
    &&& m.mixin_pre matches Some(p) ==> p.dim <= c.len() ==> is_modulated(
        p,
        c.take(p.dim as int),
        c,
        w.heard,
    )
    &&& is_modulated_if(
        m.mixin_post,
        Seq::new(m.mixin.outputs, |o: int| projected(m.mixin, w.heard, o)),
        c,
        w.mixed,
    )
    &&& w.sum.len() == z_rows(m.gating, m.bottleneck)
    &&& forall|r: int|
        0 <= r < w.sum.len() ==> #[trigger] w.sum[r] == w.conv[r].add_spec(w.mixed[r])
    &&& is_modulated_if(m.act_pre, w.sum, c, w.before)
    &&& w.active.len() == w.before.len()
    &&& forall|r: int|
        0 <= r < w.active.len() ==> is_active(m, second, w.before, f, r, #[trigger] w.active[r])
    &&& is_modulated_if(m.act_post, w.active, c, hidden)
    &&& m.layer1x1 matches Some(p) ==> is_modulated_if(
        if m.gating == GatingMode::Blended {
            m.layer1x1_post
        } else {
            None
        },
        Seq::new(p.outputs, |o: int| projected(p, hidden, o)),
        c,
        w.residual,
    )
}

/// A modulation does what it says.
proof fn lemma_modulated<S: Scalar>(m: Option<Modulation<S>>, t: Seq<S>, c: Seq<S>)
    requires
        has_amounts(m),
    ensures
        is_modulated_if(m, t, c, maybe_modulated(m, t, c)),
{
}

/// The way of every frame through a layer, with all its modulations.
pub proof fn layers_go_their_way<S: Scalar>(
    m: LayerModel<S>,
    second: Act<S>,
    h: Seq<Seq<S>>,
    x: Seq<Seq<S>>,
    c: Seq<Seq<S>>,
    n: nat,
    f: int,
)
    requires
        all_amounts(m),
        m.secondary == Some(second),
        0 <= f < n,
        m.layer1x1 matches Some(p) ==> p.outputs == m.channels,
    ensures
        ({
            let run = layer_run(m, h, x, c, n);
            let y = dilated_block(m.conv, h, conv_inputs(m, x, c, n))[f];
            exists|w: Way<S>| #[trigger]
                is_way(m, second, y, c[f], f, w, run.hidden[f]) && (forall|i: int|
                    0 <= i < m.channels ==> #[trigger] run.next[f][i] == match m.layer1x1 {
                        Some(_) => x[f][i].add_spec(w.residual[i]),
                        None => x[f][i],
                    })
        }),
{
    let run = layer_run(m, h, x, c, n);
    let y = dilated_block(m.conv, h, conv_inputs(m, x, c, n))[f];
    let d = c[f];
    let conv = maybe_modulated(m.conv_post, y, d);
    let heard = match m.mixin_pre {
        Some(p) => modulated(p, d, d),
        None => d,
    };
    let raw = affine(m.mixin, heard);
    let mixed = maybe_modulated(m.mixin_post, raw, d);
    let sum = Seq::new(z_rows(m.gating, m.bottleneck), |r: int| conv[r].add_spec(mixed[r]));
    let before = summed(m, y, d);
    let active = gated_frame(m, before, f);
    let hidden = run.hidden[f];
    let residual = match m.layer1x1 {
        Some(p) => residual(m, p, hidden, d),
        None => hidden,
    };
    let w = Way { conv, heard, mixed, sum, before, active, residual };
    lemma_modulated(m.conv_post, y, d);
    assert(raw =~= Seq::new(m.mixin.outputs, |o: int| projected(m.mixin, heard, o)));
    lemma_modulated(m.mixin_post, raw, d);
    lemma_modulated(m.act_pre, sum, d);
    lemma_modulated(m.act_post, active, d);
    assert forall|r: int| 0 <= r < active.len() implies is_active(
        m,
        second,
        before,
        f,
        r,
        #[trigger] active[r],
    ) by {
        assert(cell(before.len() as int, f, r) == f * before.len() + r);
    }
    if let Some(p) = m.layer1x1 {
        assert(affine(p, hidden) =~= Seq::new(p.outputs, |o: int| projected(p, hidden, o)));
        lemma_modulated(m.layer1x1_post, affine(p, hidden), d);
    }
    assert(is_way(m, second, y, d, f, w, hidden));
}

/// What the convolution reads of each frame: its top channels, modulated where
/// there is a modulation.
pub proof fn convolutions_read_the_input<S: Scalar>(
    m: LayerModel<S>,
    x: Seq<Seq<S>>,
    c: Seq<Seq<S>>,
    n: nat,
    f: int,
)
    requires
        has_amounts(m.conv_pre),
        0 <= f < n,
        m.conv.inputs <= x[f].len(),
        m.conv_pre matches Some(p) ==> p.dim == m.conv.inputs,
    ensures
        conv_inputs(m, x, c, n).len() == n,
        is_modulated_if(
            m.conv_pre,
            x[f].take(m.conv.inputs as int),
            c[f],
            conv_inputs(m, x, c, n)[f],
        ),
{
}

/// What a layer gives to the head, with its modulation.
pub proof fn heads_hear_what_is_shown<S: Scalar>(
    m: LayerModel<S>,
    h: Seq<Seq<S>>,
    x: Seq<Seq<S>>,
    c: Seq<Seq<S>>,
    n: nat,
    f: int,
)
    requires
        has_amounts(m.head1x1_post),
        0 <= f < n,
    ensures
        ({
            let run = layer_run(m, h, x, c, n);
            &&& m.head1x1 is None ==> run.skip[f] == run.hidden[f]
            &&& m.head1x1 matches Some(p) ==> is_modulated_if(
                m.head1x1_post,
                Seq::new(p.outputs, |o: int| projected(p, run.hidden[f], o)),
                c[f],
                run.skip[f],
            )
        }),
{
    let run = layer_run(m, h, x, c, n);
    if let Some(p) = m.head1x1 {
        assert(affine(p, run.hidden[f]) =~= Seq::new(
            p.outputs,
            |o: int| projected(p, run.hidden[f], o),
        ));
        lemma_modulated(m.head1x1_post, affine(p, run.hidden[f]), c[f]);
    }
}

} // verus!
