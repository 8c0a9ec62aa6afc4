//! What holds where the numbers do as machine numbers do: which activations are
//! odd, and that narrow samples lose nothing.

use crate::num::{Sample, Scalar};
use crate::pure::activations::{activated, fast_tanh_spec, whole, Act};
use crate::pure::dsp::{dsp_run, dsp_runs, leaf, DspModel, DspState};
use crate::pure::lstm::lstm_after;
use crate::pure::model::{chunk_run, lemma_chunks_len, lemma_run_len, narrowed};
use crate::pure::net::net_run;
use crate::pure::nn::mac;
use crate::pure::wavenet::mono_block;
use vstd::prelude::*;

verus! {

// Activations ================================================================

/// No activation but one with several slopes depends on the place in the
/// buffer.
pub proof fn place_does_not_show<S: Scalar>(a: Act<S>, x: S, p: int, q: int)
    requires
        !(a is PReLU),
    ensures
        activated(a, x, p) == activated(a, x, q),
{
}

/// What is above zero passes a rectifier unchanged, whatever its slopes.
pub proof fn rectifiers_pass_positives<S: Scalar>(a: Act<S>, x: S, p: int)
    requires
        a is ReLU || a is LeakyReLU || a is PReLU,
        S::zero_spec().lt_spec(x),
    ensures
        activated(a, x, p) == x,
{
}

/// A value that can be compared: below one or above zero.
pub open spec fn is_number<S: Scalar>(x: S) -> bool {
    x.lt_spec(whole::<S>(1)) || S::zero_spec().lt_spec(x)
}

/// Signs do as in arithmetic wherever the result can be compared, and what is
/// computed from something that cannot be compared cannot be either.
pub open spec fn signed_numbers<S: Scalar>() -> bool {
    &&& whole::<S>(1).neg_spec() == whole::<S>((-1) as i64)
    &&& forall|a: S| #[trigger] a.neg_spec().neg_spec() == a
    &&& forall|a: S| #[trigger] a.neg_spec().abs_spec() == a.abs_spec()
    &&& forall|a: S|
        #[trigger] a.lt_spec(whole::<S>((-1) as i64)) ==> !whole::<S>(1).lt_spec(a)
    &&& forall|a: S, b: S| #[trigger] a.neg_spec().lt_spec(b) == b.neg_spec().lt_spec(a)
    &&& forall|a: S, b: S|
        is_number(a.mul_spec(b)) ==> #[trigger] a.neg_spec().mul_spec(b) == a.mul_spec(
            b,
        ).neg_spec()
    &&& forall|a: S, b: S|
        is_number(a.mul_spec(b)) ==> #[trigger] a.mul_spec(b.neg_spec()) == a.mul_spec(
            b,
        ).neg_spec()
    &&& forall|a: S, b: S|
        is_number(a.div_spec(b)) ==> #[trigger] a.neg_spec().div_spec(b) == a.div_spec(
            b,
        ).neg_spec()
    &&& forall|a: S, b: S|
        is_number(a.add_spec(b)) ==> #[trigger] a.neg_spec().add_spec(b.neg_spec()).abs_spec()
            == a.add_spec(b).abs_spec()
    &&& forall|a: S, b: S|
        is_number(#[trigger] a.mul_spec(b)) ==> is_number(a) && is_number(b)
    &&& forall|a: S, b: S|
        is_number(#[trigger] a.div_spec(b)) ==> is_number(a) && is_number(b)
    &&& forall|a: S, b: S|
        is_number(#[trigger] a.add_spec(b)) ==> is_number(a) && is_number(b)
    &&& forall|a: S| is_number(#[trigger] a.abs_spec()) ==> is_number(a)
    &&& forall|a: S| is_number(#[trigger] a.neg_spec()) ==> is_number(a)
}

/// The clamp to the unit interval around zero, its rational approximation of
/// the hyperbolic tangent and the soft sign are odd.
pub proof fn odd_activations<S: Scalar>(a: Act<S>, x: S, p: int)
    requires
        a is Hardtanh || a is Fasttanh || a is Softsign,
        signed_numbers::<S>(),
        is_number(activated(a, x, p)),
    ensures
        activated(a, x.neg_spec(), p) == activated(a, x, p).neg_spec(),
{
    match a {
        Act::Hardtanh => {
            let one = whole::<S>(1);
            let minus = whole::<S>((-1) as i64);
            assert(minus.neg_spec() == one) by {
                assert(one.neg_spec().neg_spec() == one);
            }
            assert(x.neg_spec().lt_spec(minus) == minus.neg_spec().lt_spec(x));
            assert(x.neg_spec().neg_spec() == x);
            assert(one.neg_spec().lt_spec(x.neg_spec()) == x.neg_spec().neg_spec().lt_spec(one));
            assert(one.lt_spec(x.neg_spec()) == x.lt_spec(minus)) by {
                assert(minus.neg_spec().lt_spec(x.neg_spec()) == x.neg_spec().neg_spec().lt_spec(
                    minus,
                ));
            }
        },
        Act::Fasttanh => {
            lemma_fast_tanh_odd(x);
        },
        _ => {
            assert(x.neg_spec().abs_spec() == x.abs_spec());
        },
    }
}

proof fn lemma_fast_tanh_odd<S: Scalar>(x: S)
    requires
        signed_numbers::<S>(),
        is_number(fast_tanh_spec(x)),
    ensures
        fast_tanh_spec(x.neg_spec()) == fast_tanh_spec(x).neg_spec(),
{
    let y = x.neg_spec();
    let ax = x.abs_spec();
    let x2 = x.mul_spec(x);
    let a = S::literal_spec(24555075, 7);
    let b = S::literal_spec(8932299, 7);
    let c = S::literal_spec(8212267, 7);
    let d = S::literal_spec(24450663, 7);
    let e = S::literal_spec(8146427, 7);
    let poly = a.add_spec(a.mul_spec(ax)).add_spec(b.add_spec(c.mul_spec(ax)).mul_spec(x2));
    let top = x.mul_spec(poly);
    let ex = e.mul_spec(x);
    let far = ex.mul_spec(ax);
    let sum = x.add_spec(far);
    let bottom = d.add_spec(d.add_spec(x2).mul_spec(sum.abs_spec()));
    assert(fast_tanh_spec(x) == top.div_spec(bottom));
    assert(is_number(top) && is_number(bottom));
    assert(is_number(poly));
    assert(is_number(d.add_spec(x2).mul_spec(sum.abs_spec())));
    assert(is_number(sum.abs_spec()) && is_number(d.add_spec(x2)));
    assert(is_number(sum) && is_number(x2));
    assert(is_number(far) && is_number(ex));
    assert(y.abs_spec() == ax);
    assert(y.mul_spec(y) == x2) by {
        assert(x.neg_spec().mul_spec(x) == x2.neg_spec());
        assert(y.mul_spec(x.neg_spec()) == y.mul_spec(x).neg_spec()) by {
            assert(is_number(y.mul_spec(x))) by {
                lemma_neg_number(x2);
            }
        }
        assert(x2.neg_spec().neg_spec() == x2);
    }
    assert(y.mul_spec(poly) == top.neg_spec());
    assert(e.mul_spec(y) == ex.neg_spec());
    assert(ex.neg_spec().mul_spec(ax) == far.neg_spec());
    assert(y.add_spec(far.neg_spec()).abs_spec() == sum.abs_spec());
    assert(top.neg_spec().div_spec(bottom) == top.div_spec(bottom).neg_spec());
}

/// The negative of what can be compared can be compared.
proof fn lemma_neg_number<S: Scalar>(x: S)
    requires
        signed_numbers::<S>(),
        is_number(x),
    ensures
        is_number(x.neg_spec()),
{
    assert(x.neg_spec().neg_spec() == x);
    assert(is_number(x.neg_spec().neg_spec()));
}

// Narrow samples =============================================================

/// A number survives the way to a sample and back, wherever what comes back can
/// be compared.
pub open spec fn lossless<S: Scalar>() -> bool {
    forall|x: S|
        is_number(S::narrow_spec(#[trigger] x.widen_spec())) ==> S::narrow_spec(x.widen_spec())
            == x
}

/// Every sample that a model gives is a widened number.
proof fn lemma_samples_are_wide<S: Scalar>(
    m: DspModel<S>,
    st: DspState<S>,
    x: Seq<S::Wide>,
    i: int,
)
    requires
        dsp_runs(m),
        0 <= i < x.len(),
    ensures
        exists|s: S| #[trigger] s.widen_spec() == dsp_run(m, st, x).output[i],
{
    lemma_run_len(m, st, x);
    match leaf(m) {
        DspModel::Lstm(l) => {
            let h = lstm_after::<S>(l.cells, st->Lstm_0, x, (i + 1) as nat).last().h;
            let s = mac(S::zero_spec(), l.head_weight, h, l.hidden).add_spec(l.head_bias[0]);
            assert(s.widen_spec() == dsp_run(m, st, x).output[i]);
        },
        DspModel::Net(n) => {
            let run = net_run(n, st->Net_0, mono_block::<S>(n.inputs, x));
            assert(run.output[i][0].widen_spec() == dsp_run(m, st, x).output[i]);
        },
        DspModel::Slim(_, _, n) => {
            let run = net_run(n, st->Net_0, mono_block::<S>(n.inputs, x));
            assert(run.output[i][0].widen_spec() == dsp_run(m, st, x).output[i]);
        },
        DspModel::Container(_, _) => {},
    }
}

/// In blocks, too.
proof fn lemma_chunks_are_wide<S: Scalar>(
    m: DspModel<S>,
    st: DspState<S>,
    x: Seq<S::Wide>,
    max: nat,
    i: int,
)
    requires
        dsp_runs(m),
        max > 0,
        0 <= i < x.len(),
    ensures
        exists|s: S| #[trigger] s.widen_spec() == chunk_run(m, st, x, max).output[i],
    decreases x.len(),
{
    let n = if x.len() < max {
        x.len()
    } else {
        max
    };
    let head = x.take(n as int);
    let first = dsp_run(m, st, head);
    lemma_run_len(m, st, head);
    let all = chunk_run(m, st, x, max);
    if i < n {
        lemma_samples_are_wide(m, st, head, i);
        assert(all.output[i] == first.output[i]);
    } else {
        let rest = chunk_run(m, first.state, x.skip(n as int), max);
        lemma_chunks_len(m, first.state, x.skip(n as int), max);
        lemma_chunks_are_wide(m, first.state, x.skip(n as int), max, i - n);
        assert(all.output[i] == rest.output[i - n]);
    }
}

/// Processing narrow samples loses nothing: each one that `process_f32` writes
/// stands for the sample that `process` writes.
pub proof fn narrow_samples_lose_nothing<S: Scalar>(
    m: DspModel<S>,
    st: DspState<S>,
    x: Seq<S::Wide>,
    max: nat,
    i: int,
)
    requires
        lossless::<S>(),
        dsp_runs(m),
        max > 0,
        0 <= i < x.len(),
        is_number(narrowed::<S>(chunk_run(m, st, x, max).output)[i]),
    ensures
        narrowed::<S>(chunk_run(m, st, x, max).output)[i].widen_spec() == chunk_run(
            m,
            st,
            x,
            max,
        ).output[i],
{
    lemma_chunks_len(m, st, x, max);
    lemma_chunks_are_wide(m, st, x, max, i);
}

} // verus!
