//! A convolution in blocks is the convolution of the whole signal.

use crate::laws::blocks::conv_split;
use crate::num::{zeros, Scalar};
use crate::pure::conv1d::{dilated_block, lookback, rolled, tap_sum, Dilated};
use crate::pure::mat::silence;
use crate::pure::nn::mac;
use vstd::arithmetic::mul::*;
use vstd::prelude::*;

verus! {

/// The frames of the first `k` blocks, one after the other.
pub open spec fn joined<S>(blocks: Seq<Seq<Seq<S>>>, k: nat) -> Seq<Seq<S>>
    decreases k,
{
    if k == 0 {
        Seq::empty()
    } else {
        joined(blocks, (k - 1) as nat) + blocks[k - 1]
    }
}

/// The history after the first `k` blocks.
pub open spec fn history_after<S>(h: Seq<Seq<S>>, blocks: Seq<Seq<Seq<S>>>, k: nat) -> Seq<Seq<S>>
    decreases k,
{
    if k == 0 {
        h
    } else {
        rolled(history_after(h, blocks, (k - 1) as nat), blocks[k - 1])
    }
}

/// What a convolution makes of each of the first `k` blocks, one after the other.
pub open spec fn made<S: Scalar>(
    m: Dilated<S>,
    h: Seq<Seq<S>>,
    blocks: Seq<Seq<Seq<S>>>,
    k: nat,
) -> Seq<Seq<S>>
    decreases k,
{
    if k == 0 {
        Seq::empty()
    } else {
        let j = (k - 1) as nat;
        made(m, h, blocks, j) + dilated_block(m, history_after(h, blocks, j), blocks[k - 1])
    }
}

/// However a signal is cut into blocks, a convolution makes of it what it makes
/// of the whole.
pub proof fn blocks_do_not_show_in_convolutions<S: Scalar>(
    m: Dilated<S>,
    h: Seq<Seq<S>>,
    blocks: Seq<Seq<Seq<S>>>,
    k: nat,
)
    requires
        m.weight.len() >= 1,
        h.len() == lookback(m),
    ensures
        made(m, h, blocks, k) == dilated_block(m, h, joined(blocks, k)),
        history_after(h, blocks, k) == rolled(h, joined(blocks, k)),
        history_after(h, blocks, k).len() == lookback(m),
    decreases k,
{
    if k == 0 {
        assert(dilated_block(m, h, Seq::empty()) =~= Seq::empty());
        assert(rolled(h, Seq::empty()) =~= h);
    } else {
        let j = (k - 1) as nat;
        blocks_do_not_show_in_convolutions(m, h, blocks, j);
        conv_split(m, h, joined(blocks, j), blocks[k - 1]);
        conv_split(m, history_after(h, blocks, j), blocks[k - 1], Seq::empty());
    }
}

/// Frame `t` of a signal that was silent before its first frame.
pub open spec fn frame_at<S: Scalar>(x: Seq<Seq<S>>, t: int, inputs: nat) -> Seq<S> {
    if t < 0 {
        zeros::<S>(inputs)
    } else {
        x[t]
    }
}

/// The sum that stands at frame `t` of output `o`: the offset and, from the
/// oldest tap on, the weighted frames at their distances, over the `k` oldest
/// taps.
pub open spec fn weighted_sum<S: Scalar>(
    m: Dilated<S>,
    x: Seq<Seq<S>>,
    t: int,
    o: int,
    k: nat,
) -> S
    decreases k,
{
    if k == 0 {
        m.offset[o]
    } else {
        mac(
            weighted_sum(m, x, t, o, (k - 1) as nat),
            m.weight[k - 1][o],
            frame_at(x, t - m.dilation * (m.weight.len() - k), m.inputs),
            m.inputs,
        )
    }
}

/// After silence a tap reads the signal, or silence before its first frame.
proof fn lemma_weighted_sum<S: Scalar>(m: Dilated<S>, x: Seq<Seq<S>>, t: int, o: int, k: nat)
    requires
        k <= m.weight.len(),
        0 <= t < x.len(),
    ensures
        tap_sum(m, silence::<S>(m.inputs, lookback(m) as nat) + x, lookback(m) + t, o, k)
            == weighted_sum(m, x, t, o, k),
    decreases k,
{
    if k > 0 {
        lemma_weighted_sum(m, x, t, o, (k - 1) as nat);
        let h = silence::<S>(m.inputs, lookback(m) as nat);
        let n = m.weight.len() as int;
        let back = m.dilation * (n - k);
        assert(0 <= back <= lookback(m)) by (nonlinear_arith)
            requires
                1 <= k <= n,
                m.dilation >= 0,
                back == m.dilation * (n - k),
                lookback(m) == (n - 1) * m.dilation,
        ;
        let at = lookback(m) + t - back;
        if t < back {
            assert((h + x)[at] == h[at]);
            assert(h[at] == zeros::<S>(m.inputs));
        } else {
            assert((h + x)[at] == x[t - back]);
        }
    }
}

/// A convolution that has heard nothing before makes of a signal, in whatever
/// blocks it comes, the weighted sum of the frames at the distances of its taps.
pub proof fn convolutions_are_weighted_sums<S: Scalar>(
    m: Dilated<S>,
    blocks: Seq<Seq<Seq<S>>>,
    k: nat,
    t: int,
    o: int,
)
    requires
        m.weight.len() >= 1,
        0 <= t < joined(blocks, k).len(),
        0 <= o < m.outputs,
    ensures
        ({
            let out = made(m, silence::<S>(m.inputs, lookback(m) as nat), blocks, k);
            &&& out.len() == joined(blocks, k).len()
            &&& out[t].len() == m.outputs
            &&& out[t][o] == weighted_sum(m, joined(blocks, k), t, o, m.weight.len())
        }),
{
    lemma_mul_nonnegative(m.weight.len() - 1, m.dilation as int);
    let h = silence::<S>(m.inputs, lookback(m) as nat);
    blocks_do_not_show_in_convolutions(m, h, blocks, k);
    lemma_weighted_sum(m, joined(blocks, k), t, o, m.weight.len());
}

} // verus!
