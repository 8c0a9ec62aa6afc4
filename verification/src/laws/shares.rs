//! How the sizes inside a stack follow its channels.

use crate::num::{Sample, Scalar};
use crate::pure::array_config::ArraySpec;
use crate::pure::net_build::array_plans;
use crate::pure::slim::{
    bottleneck_for, bottleneck_sound, channels_for, full_channels, slim_net, slim_spec, slim_specs,
    SlimModel,
};
use vstd::arithmetic::div_mod::*;
use vstd::arithmetic::mul::*;
use vstd::prelude::*;

verus! {

/// `b` channels after the activation are to `t` channels what the full number is
/// to the full channels, rounded down, and at least one.
pub open spec fn in_proportion(b: int, t: int, bottleneck: int, channels: int) -> bool {
    &&& b >= 1
    &&& bottleneck * t >= channels ==> b * channels <= bottleneck * t < (b + 1) * channels
    &&& bottleneck * t < channels ==> b == 1
}

/// A stack with a projection to the residual keeps the proportion between its
/// channels and those after the activation; without one they are as many.
pub proof fn bottlenecks_keep_the_proportion<S>(a: ArraySpec<S>, t: nat)
    requires
        a.channels > 0,
    ensures
        a.layer1x1_active ==> in_proportion(
            bottleneck_for(a, t) as int,
            t as int,
            a.bottleneck as int,
            a.channels as int,
        ),
        !a.layer1x1_active ==> bottleneck_for(a, t) == t,
{
    let x = a.bottleneck * t;
    let c = a.channels as int;
    lemma_mul_nonnegative(a.bottleneck as int, t as int);
    lemma_fundamental_div_mod(x, c);
    lemma_mod_bound(x, c);
    let q = x / c;
    assert(q * c <= x < (q + 1) * c) by (nonlinear_arith)
        requires
            x == c * q + x % c,
            0 <= x % c < c,
    ;
    if x >= c {
        assert(q >= 1) by (nonlinear_arith)
            requires
                x < (q + 1) * c,
                x >= c,
                c > 0,
        ;
    } else {
        lemma_basic_div(x, c);
    }
}

/// Where the proportion is whole it is met exactly.
pub proof fn whole_proportions_are_met<S>(a: ArraySpec<S>, t: nat, b: nat)
    requires
        a.channels > 0,
        a.layer1x1_active,
        b >= 1,
        b * a.channels == a.bottleneck * t,
    ensures
        bottleneck_for(a, t) == b,
{
    bottlenecks_keep_the_proportion(a, t);
    let r = bottleneck_for(a, t) as int;
    let c = a.channels as int;
    let n = b as int;
    assert(n * c >= c) by (nonlinear_arith)
        requires
            n >= 1,
            c > 0,
    ;
    assert(r == n) by (nonlinear_arith)
        requires
            r * c <= n * c,
            n * c < (r + 1) * c,
            c > 0,
    ;
}

/// The stacks of a reduced network: each has its channels, the channels after
/// the activation in proportion, reads the channels of the stack before, and
/// gives its head to the stack behind. Everything else is as at full size.
pub proof fn reduced_stacks_follow_their_channels<S>(
    arrays: Seq<ArraySpec<S>>,
    targets: Seq<usize>,
    i: int,
)
    requires
        0 <= i < arrays.len(),
        targets.len() == arrays.len(),
        arrays[i].channels > 0,
        arrays[i].layer1x1_active ==> arrays[i].bottleneck * targets[i] <= usize::MAX,
    ensures
        ({
            let full = arrays[i];
            let slim = slim_specs(arrays, targets)[i];
            &&& slim.channels == targets[i]
            &&& full.layer1x1_active ==> in_proportion(
                slim.bottleneck as int,
                targets[i] as int,
                full.bottleneck as int,
                full.channels as int,
            )
            &&& !full.layer1x1_active ==> slim.bottleneck == targets[i]
            &&& i > 0 ==> slim.input_size == targets[i - 1]
            &&& i == 0 ==> slim.input_size == full.input_size
            &&& i + 1 < arrays.len() ==> slim.head_size == targets[i + 1]
            &&& i + 1 == arrays.len() ==> slim.head_size == full.head_size
            &&& slim.condition_size == full.condition_size
            &&& slim.head_dilation == full.head_dilation
            &&& slim.head_kernel_size == full.head_kernel_size
            &&& slim.head_bias == full.head_bias
            &&& slim.kernel_sizes == full.kernel_sizes
            &&& slim.dilations == full.dilations
            &&& slim.activations == full.activations
            &&& slim.gating_modes == full.gating_modes
            &&& slim.secondary_activations == full.secondary_activations
            &&& slim.layer1x1_active == full.layer1x1_active
            &&& slim.head1x1_active == full.head1x1_active
            &&& slim.head1x1_out == full.head1x1_out
            &&& slim.films == full.films
        }),
{
    bottlenecks_keep_the_proportion(arrays[i], targets[i] as nat);
    let a = arrays[i];
    if a.layer1x1_active {
        let b = bottleneck_for(a, targets[i] as nat) as int;
        let x = a.bottleneck * targets[i];
        let c = a.channels as int;
        if x >= c {
            assert(b <= x) by (nonlinear_arith)
                requires
                    b * c <= x,
                    c >= 1,
                    b >= 1,
            ;
        }
    }
}

/// The layers of a network at any size that can be built have the channels of
/// their stack, and channels after the activation in proportion.
pub proof fn layers_follow_the_channels<S: Scalar>(
    m: SlimModel<S>,
    targets: Seq<usize>,
    i: int,
    l: int,
)
    requires
        slim_net(m, targets) is Ok,
        0 <= i < m.arrays.len(),
        targets.len() == m.arrays.len(),
        0 <= l < m.arrays[i].dilations.len(),
        m.arrays[i].channels > 0,
        m.arrays[i].bottleneck > 0,
        !m.arrays[i].layer1x1_active ==> m.arrays[i].bottleneck == m.arrays[i].channels,
    ensures
        ({
            let layer = slim_net(m, targets)->Ok_0.arrays[i].layers[l];
            let full = m.arrays[i];
            &&& layer.channels == targets[i]
            &&& full.layer1x1_active ==> in_proportion(
                layer.bottleneck as int,
                targets[i] as int,
                full.bottleneck as int,
                full.channels as int,
            )
            &&& !full.layer1x1_active ==> layer.bottleneck == targets[i]
        }),
{
    let full = m.arrays[i];
    if targets == full_channels(m.arrays) {
        assert(targets[i] == full.channels);
        let b = full.bottleneck as int;
        let c = full.channels as int;
        assert(b * c >= c && b * c < (b + 1) * c) by (nonlinear_arith)
            requires
                b >= 1,
                c >= 1,
        ;
        assert(array_plans(m.arrays)[i].layers[l].bottleneck == b);
    } else {
        assert(bottleneck_sound(m.arrays[i], targets[i] as nat));
        reduced_stacks_follow_their_channels(m.arrays, targets, i);
        let slim = slim_specs(m.arrays, targets);
        assert(slim[i] == slim_spec(m.arrays, targets, i));
        assert(array_plans(slim)[i].layers[l].bottleneck == slim[i].bottleneck);
    }
}

/// Which size a ratio selects: the one whose number is the number of whole steps,
/// the first where that is below zero, and the last where it is beyond the end.
pub proof fn ratios_count_steps<S: Scalar>(m: SlimModel<S>, val: S::Wide, i: int)
    requires
        0 <= i < m.arrays.len(),
        m.allowed.len() == m.arrays.len(),
        m.allowed[i].len() <= usize::MAX,
    ensures
        ({
            let list = m.allowed[i];
            let k = val.step_of_spec(list.len() as usize) as int;
            let picked = channels_for(m, val)[i];
            &&& list.len() == 0 ==> picked == m.arrays[i].channels
            &&& list.len() > 0 && k < 0 ==> picked == list[0]
            &&& 0 <= k < list.len() ==> picked == list[k]
            &&& list.len() > 0 && k >= list.len() ==> picked == list[list.len() - 1]
        }),
{
}

} // verus!
