//! A model is a map from signals to signals: how a signal is cut into blocks,
//! and how much room a model has, does not show in what it gives.

use crate::laws::blocks::{
    array_state_fits, array_steady, head_state_fits, head_steady, layer_steady, net_split,
    net_state_fits, net_steady, stage_rows, steady,
};
use crate::num::Scalar;
use crate::pure::conv1d::{lookback, Dilated};
use crate::pure::dsp::{dsp_reach, dsp_rest, dsp_run, leaf, Dsp, DspModel, DspRun, DspState};
use crate::pure::layer::{z_rows, GatingMode, LayerModel};
use crate::pure::layer_array::{array_rest, ArrayModel, LayerArray};
use crate::pure::lstm::{lstm_after, lstm_run, CellModel, CellState, LstmModel};
use crate::pure::model::{after_silence, blocks_for, chunk_run, quiet_block, warm, PureNamModel};
use crate::pure::net::{net_rest, net_run, NetModel, WaveNet};
use crate::pure::post_head::{head_rest, HeadModel};
use crate::pure::wavenet::{first_channel, mono_block};
use vstd::arithmetic::mul::*;
use vstd::prelude::*;

verus! {

// Which models ===============================================================

/// The activation of a layer treats the frames of a block alike. (A layer with
/// a second activation applies both frame by frame, and always does.)
pub open spec fn layer_even<S: Scalar>(m: LayerModel<S>) -> bool {
    m.gating == GatingMode::Ungated ==> steady(m.act, z_rows(m.gating, m.bottleneck))
}

/// The activations of a stack treat the frames of a block alike.
pub open spec fn array_even<S: Scalar>(m: ArrayModel<S>) -> bool {
    forall|i: int| 0 <= i < m.layers.len() ==> layer_even(#[trigger] m.layers[i])
}

/// The activations of a head that is given `rows` channels treat the frames of
/// a block alike.
pub open spec fn head_even<S: Scalar>(m: HeadModel<S>, rows: nat) -> bool {
    forall|i: int|
        0 <= i < m.stages.len() ==> steady(m.stages[i].0, #[trigger] stage_rows(m, rows, i))
}

/// The activations of a network treat the frames of a block alike. The only
/// ones that may not are those with several slopes.
pub open spec fn net_even<S: Scalar>(m: NetModel<S>) -> bool
    decreases m,
{
    &&& forall|i: int| 0 <= i < m.arrays.len() ==> array_even(#[trigger] m.arrays[i])
    &&& m.head matches Some(h) ==> head_even(h, m.arrays.last().head.outputs)
    &&& m.condition matches Some(cd) ==> net_even(*cd)
}

/// The activations of a model treat the samples of a block alike.
pub open spec fn dsp_even<S: Scalar>(m: DspModel<S>) -> bool {
    match leaf(m) {
        DspModel::Lstm(_) => true,
        DspModel::Net(n) => net_even(n),
        DspModel::Slim(_, _, n) => net_even(n),
        DspModel::Container(_, _) => true,
    }
}

/// A model treats the samples of a block alike.
pub open spec fn dsp_steady<S: Scalar>(m: DspModel<S>) -> bool {
    match leaf(m) {
        DspModel::Lstm(_) => true,
        DspModel::Net(n) => net_steady(n),
        DspModel::Slim(_, _, n) => net_steady(n),
        DspModel::Container(_, _) => false,
    }
}

/// A model could remember this.
pub open spec fn dsp_state_fits<S: Scalar>(m: DspModel<S>, st: DspState<S>) -> bool {
    match leaf(m) {
        DspModel::Lstm(_) => st is Lstm,
        DspModel::Net(n) => st matches DspState::Net(s) && net_state_fits(n, s),
        DspModel::Slim(_, _, n) => st matches DspState::Net(s) && net_state_fits(n, s),
        DspModel::Container(_, _) => false,
    }
}

// Recurrent networks =========================================================

/// A recurrent network on the first samples of a longer signal.
proof fn lemma_lstm_first<S: Scalar>(
    cells: Seq<CellModel<S>>,
    st: Seq<CellState<S>>,
    x: Seq<S::Wide>,
    y: Seq<S::Wide>,
    n: nat,
)
    requires
        n <= x.len(),
    ensures
        lstm_after::<S>(cells, st, x + y, n) == lstm_after::<S>(cells, st, x, n),
    decreases n,
{
    if n > 0 {
        lemma_lstm_first::<S>(cells, st, x, y, (n - 1) as nat);
        assert((x + y)[n - 1] == x[n - 1]);
    }
}

/// A recurrent network on the later samples of a longer signal.
proof fn lemma_lstm_later<S: Scalar>(
    cells: Seq<CellModel<S>>,
    st: Seq<CellState<S>>,
    x: Seq<S::Wide>,
    y: Seq<S::Wide>,
    n: nat,
)
    requires
        n <= y.len(),
    ensures
        lstm_after::<S>(cells, st, x + y, x.len() + n) == lstm_after::<S>(
            cells,
            lstm_after::<S>(cells, st, x, x.len()),
            y,
            n,
        ),
    decreases n,
{
    if n == 0 {
        lemma_lstm_first::<S>(cells, st, x, y, x.len());
    } else {
        lemma_lstm_later::<S>(cells, st, x, y, (n - 1) as nat);
        assert((x + y)[x.len() + n - 1] == y[n - 1]);
    }
}

/// A recurrent network in two blocks.
pub proof fn lstm_split<S: Scalar>(
    m: LstmModel<S>,
    st: Seq<CellState<S>>,
    x: Seq<S::Wide>,
    y: Seq<S::Wide>,
)
    ensures
        ({
            let mid = lstm_after::<S>(m.cells, st, x, x.len());
            &&& lstm_after::<S>(m.cells, st, x + y, x.len() + y.len()) == lstm_after::<S>(
                m.cells,
                mid,
                y,
                y.len(),
            )
            &&& lstm_run(m, st, x + y) == lstm_run(m, st, x) + lstm_run(m, mid, y)
        }),
{
    let mid = lstm_after::<S>(m.cells, st, x, x.len());
    lemma_lstm_later::<S>(m.cells, st, x, y, y.len());
    let whole = lstm_run(m, st, x + y);
    let parts = lstm_run(m, st, x) + lstm_run(m, mid, y);
    assert forall|f: int| 0 <= f < x.len() + y.len() implies #[trigger] whole[f] == parts[f] by {
        if f < x.len() {
            lemma_lstm_first::<S>(m.cells, st, x, y, (f + 1) as nat);
        } else {
            lemma_lstm_later::<S>(m.cells, st, x, y, (f + 1 - x.len()) as nat);
        }
    }
    assert(whole =~= parts);
}

// Models =====================================================================

/// A network on a signal of samples in two blocks.
proof fn lemma_mono_split<S: Scalar>(
    n: NetModel<S>,
    st: DspState<S>,
    x: Seq<S::Wide>,
    y: Seq<S::Wide>,
)
    requires
        net_steady(n),
        st matches DspState::Net(s) && net_state_fits(n, s),
    ensures
        ({
            let m = DspModel::<S>::Net(n);
            let whole = dsp_run(m, st, x + y);
            let first = dsp_run(m, st, x);
            let second = dsp_run(m, first.state, y);
            &&& whole.state == second.state
            &&& whole.output == first.output + second.output
            &&& dsp_state_fits(m, first.state)
        }),
{
    let a = mono_block::<S>(n.inputs, x);
    let b = mono_block::<S>(n.inputs, y);
    assert(mono_block::<S>(n.inputs, x + y) =~= a + b);
    net_split(n, st->Net_0, a, b);
    let first = net_run(n, st->Net_0, a);
    let second = net_run(n, first.state, b);
    assert(first_channel(first.output + second.output) =~= first_channel(first.output)
        + first_channel(second.output));
}

/// A model in two blocks: what it gives for one block after another is what it
/// gives for both at once, and it remembers the same.
pub proof fn dsp_split<S: Scalar>(
    m: DspModel<S>,
    st: DspState<S>,
    x: Seq<S::Wide>,
    y: Seq<S::Wide>,
)
    requires
        dsp_steady(m),
        dsp_state_fits(m, st),
    ensures
        ({
            let whole = dsp_run(m, st, x + y);
            let first = dsp_run(m, st, x);
            let second = dsp_run(m, first.state, y);
            &&& whole.state == second.state
            &&& whole.output == first.output + second.output
            &&& dsp_state_fits(m, first.state)
        }),
{
    match leaf(m) {
        DspModel::Lstm(l) => {
            lstm_split(l, st->Lstm_0, x, y);
        },
        DspModel::Net(n) => {
            lemma_mono_split(n, st, x, y);
        },
        DspModel::Slim(_, _, n) => {
            lemma_mono_split(n, st, x, y);
        },
        DspModel::Container(_, _) => {},
    }
}

/// How much room a model has does not show: in blocks of any size it gives what
/// it gives for the whole signal at once.
pub proof fn any_room<S: Scalar>(
    m: DspModel<S>,
    st: DspState<S>,
    x: Seq<S::Wide>,
    max: nat,
)
    requires
        dsp_steady(m),
        dsp_state_fits(m, st),
        max > 0,
        x.len() > 0,
    ensures
        chunk_run(m, st, x, max) == dsp_run(m, st, x),
    decreases x.len(),
{
    let n = if x.len() < max {
        x.len()
    } else {
        max
    };
    let a = x.take(n as int);
    let b = x.skip(n as int);
    assert(x =~= a + b);
    let first = dsp_run(m, st, a);
    if b.len() == 0 {
        assert(a =~= x);
        assert(chunk_run(m, first.state, b, max) == (DspRun::<S> {
            state: first.state,
            output: Seq::empty(),
        }));
        assert(first.output + Seq::<S::Wide>::empty() =~= first.output);
    } else {
        dsp_split(m, st, a, b);
        any_room(m, first.state, b, max);
    }
}

/// Block boundaries do not show: a signal in two pieces, with room for `i` and
/// `j` samples, gives what it gives as a whole with room for `k`, and leaves
/// the same behind.
pub proof fn any_blocks<S: Scalar>(
    m: DspModel<S>,
    st: DspState<S>,
    x: Seq<S::Wide>,
    y: Seq<S::Wide>,
    i: nat,
    j: nat,
    k: nat,
)
    requires
        dsp_steady(m),
        dsp_state_fits(m, st),
        i > 0,
        j > 0,
        k > 0,
    ensures
        ({
            let whole = chunk_run(m, st, x + y, k);
            let first = chunk_run(m, st, x, i);
            let second = chunk_run(m, first.state, y, j);
            &&& whole.state == second.state
            &&& whole.output == first.output + second.output
            &&& dsp_state_fits(m, first.state)
        }),
{
    let first = chunk_run(m, st, x, i);
    let second = chunk_run(m, first.state, y, j);
    if x.len() == 0 {
        assert(x + y =~= y);
        assert(first.output + second.output =~= second.output);
        if y.len() > 0 {
            any_room(m, st, y, j);
            any_room(m, st, y, k);
        }
    } else {
        any_room(m, st, x, i);
        any_room(m, st, x + y, k);
        dsp_split(m, st, x, y);
        if y.len() == 0 {
            assert(x + y =~= x);
            assert(first.output + second.output =~= first.output);
        } else {
            any_room(m, first.state, y, j);
        }
    }
}

// Loaded models ==============================================================

/// A convolution with a tap does not look ahead.
proof fn lemma_lookback<S>(m: Dilated<S>)
    requires
        m.weight.len() >= 1,
    ensures
        lookback(m) >= 0,
{
    lemma_mul_nonnegative(m.weight.len() - 1, m.dilation as int);
}

/// A stack whose shapes agree.
proof fn lemma_array_sound<S: Scalar>(a: LayerArray<S>)
    requires
        a.wf(),
        array_even(a.model()),
    ensures
        array_steady(a.model()),
{
    let m = a.model();
    assert forall|i: int| 0 <= i < m.layers.len() implies layer_steady(#[trigger] m.layers[i]) by {
        assert(a.layers@[i].wf());
        assert(layer_even(m.layers[i]));
    }
}

/// A network whose shapes agree treats the frames of a block alike where its
/// activations do.
pub proof fn sound_net_is_steady<S: Scalar>(w: WaveNet<S>)
    requires
        w.wf(),
        net_even(w.model()),
    ensures
        net_steady(w.model()),
    decreases w,
{
    reveal_with_fuel(WaveNet::wf, 2);
    reveal_with_fuel(WaveNet::model, 2);
    let m = w.model();
    assert forall|i: int| 0 <= i < m.arrays.len() implies array_steady(#[trigger] m.arrays[i]) by {
        assert(w.layer_arrays@[i].wf());
        assert(array_even(m.arrays[i]));
        lemma_array_sound(w.layer_arrays@[i]);
    }
    if let Some(h) = w.post_head {
        let rows = m.arrays.last().head.outputs;
        let hm = h.model();
        assert(head_even(hm, rows));
        assert forall|i: int| 0 <= i < hm.stages.len() implies hm.stages[i].1.weight.len() >= 1
            && steady(hm.stages[i].0, #[trigger] stage_rows(hm, rows, i)) by {
            assert(h.convs@[i].wf());
        }
    }
    if let Some(cd) = w.condition_dsp {
        sound_net_is_steady(*cd);
    }
}

/// What a network with room remembers is what it could remember.
pub proof fn sound_net_state<S: Scalar>(w: WaveNet<S>, max: nat)
    requires
        w.wf(),
        w.sized(max),
    ensures
        net_state_fits(w.model(), w.state()),
    decreases w,
{
    reveal_with_fuel(WaveNet::wf, 2);
    reveal_with_fuel(WaveNet::sized, 2);
    reveal_with_fuel(WaveNet::model, 2);
    reveal_with_fuel(WaveNet::state, 2);
    let m = w.model();
    let st = w.state();
    assert forall|i: int| 0 <= i < m.arrays.len() implies array_state_fits(
        m.arrays[i],
        #[trigger] st.arrays[i],
    ) by {
        let a = w.layer_arrays@[i];
        assert(a.wf() && a.sized(max));
        lemma_lookback(m.arrays[i].head);
        assert forall|k: int| 0 <= k < m.arrays[i].layers.len() implies (
        #[trigger] st.arrays[i].layers[k]).len() == lookback(m.arrays[i].layers[k].conv) by {
            assert(a.layers@[k].wf() && a.layers@[k].sized(max));
            lemma_lookback(m.arrays[i].layers[k].conv);
        }
    }
    if let Some(h) = w.post_head {
        let hm = h.model();
        let hs = h.state();
        assert forall|k: int| 0 <= k < hm.stages.len() implies (#[trigger] hs[k]).len()
            == lookback(hm.stages[k].1) by {
            assert(h.convs@[k].wf() && h.convs@[k].sized(max));
            lemma_lookback(hm.stages[k].1);
        }
    }
    if let Some(cd) = w.condition_dsp {
        sound_net_state(*cd, max);
    }
}

/// A network that has heard nothing remembers what it could remember.
pub proof fn net_rest_fits<S: Scalar>(m: NetModel<S>)
    requires
        net_steady(m),
    ensures
        net_state_fits(m, net_rest(m)),
    decreases m,
{
    let st = net_rest(m);
    assert forall|i: int| 0 <= i < m.arrays.len() implies array_state_fits(
        m.arrays[i],
        #[trigger] st.arrays[i],
    ) by {
        let a = m.arrays[i];
        assert(array_steady(a));
        assert(st.arrays[i] == array_rest(a));
        lemma_lookback(a.head);
        assert forall|k: int| 0 <= k < a.layers.len() implies (#[trigger] st.arrays[i].layers[k]).len()
            == lookback(a.layers[k].conv) by {
            assert(layer_steady(a.layers[k]));
            lemma_lookback(a.layers[k].conv);
        }
    }
    if let Some(h) = m.head {
        let rows = m.arrays.last().head.outputs;
        let hs = head_rest(h);
        assert(head_steady(h, rows));
        assert forall|k: int| 0 <= k < h.stages.len() implies (#[trigger] hs[k]).len() == lookback(
            h.stages[k].1,
        ) by {
            assert(steady(h.stages[k].0, stage_rows(h, rows, k)));
            lemma_lookback(h.stages[k].1);
        }
        assert(head_state_fits(h, hs));
    }
    if let Some(cd) = m.condition {
        net_rest_fits(*cd);
    }
}

/// A sound model treats the samples of a block alike where its activations do.
pub proof fn sound_is_steady<S: Scalar>(d: Dsp<S>)
    requires
        d.wf(),
        dsp_even(d.model()),
    ensures
        dsp_steady(d.model()),
    decreases d,
{
    match d {
        Dsp::WaveNet(w) => {
            sound_net_is_steady(w);
        },
        Dsp::SlimmableWaveNet(s) => {
            sound_net_is_steady(s.current);
        },
        Dsp::Lstm(_) => {},
        Dsp::Container { subs, active } => {
            d.lemma_active();
            sound_is_steady(*subs@[active as int].1);
        },
    }
}

/// What a sound model with room remembers is what it could remember.
pub proof fn sound_state<S: Scalar>(d: Dsp<S>, max: nat)
    requires
        d.wf(),
        d.sized(max),
    ensures
        dsp_state_fits(d.model(), d.state()),
    decreases d,
{
    match d {
        Dsp::WaveNet(w) => {
            sound_net_state(w, max);
        },
        Dsp::SlimmableWaveNet(s) => {
            sound_net_state(s.current, max);
        },
        Dsp::Lstm(_) => {},
        Dsp::Container { subs, active } => {
            d.lemma_active();
            sound_state(*subs@[active as int].1, max);
        },
    }
}

/// A model that has been reset remembers what it could remember.
pub proof fn warm_fits<S: Scalar>(m: DspModel<S>, max: nat)
    requires
        dsp_steady(m),
    ensures
        dsp_state_fits(m, warm(m, max)),
{
    match leaf(m) {
        DspModel::Net(n) => {
            net_rest_fits(n);
        },
        DspModel::Slim(_, _, n) => {
            net_rest_fits(n);
        },
        _ => {},
    }
    lemma_silence_fits(
        m,
        dsp_rest(m),
        max,
        blocks_for(dsp_reach(m), max as int),
    );
}

/// Silence keeps what a model remembers in shape.
proof fn lemma_silence_fits<S: Scalar>(m: DspModel<S>, st: DspState<S>, max: nat, k: nat)
    requires
        dsp_steady(m),
        dsp_state_fits(m, st),
    ensures
        dsp_state_fits(m, after_silence(m, st, max, k)),
    decreases k,
{
    if k > 0 {
        lemma_silence_fits(m, st, max, (k - 1) as nat);
        dsp_split(
            m,
            after_silence(m, st, max, (k - 1) as nat),
            quiet_block::<S::Wide>(max),
            Seq::empty(),
        );
    }
}

/// Block boundaries do not show in a loaded model: two calls, one after the
/// other, give what one call gives for both blocks together.
///
/// What a call of `process` gives is `chunk_run` of its input, from what the
/// model remembers at the start.
pub proof fn calls_join<S: Scalar>(
    model: PureNamModel<S>,
    x: Seq<S::Wide>,
    y: Seq<S::Wide>,
)
    requires
        model.wf(),
        dsp_even(model.dsp.model()),
    ensures
        ({
            let m = model.dsp.model();
            let max = model.block_size();
            let whole = chunk_run(m, model.entry_state(), x + y, max);
            let first = chunk_run(m, model.entry_state(), x, max);
            let second = chunk_run(m, first.state, y, max);
            &&& whole.state == second.state
            &&& whole.output == first.output + second.output
        }),
{
    let m = model.dsp.model();
    let max = model.block_size();
    sound_is_steady(model.dsp);
    if model.max_buffer_size == 0 {
        warm_fits(m, max);
    } else {
        sound_state(model.dsp, max);
    }
    any_blocks(m, model.entry_state(), x, y, max, max, max);
}

} // verus!
