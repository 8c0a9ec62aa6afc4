//! The kinds of models behind one interface.

use crate::num::{lawful, Sample, Scalar};
use crate::pure::lstm::{lstm_after, lstm_reach, lstm_rest, lstm_run, CellState, Lstm, LstmModel};
use crate::pure::net::{
    net_defined, net_fits, net_reach, net_rest, net_run, net_total, net_wired, NetModel, NetState,
    WaveNet,
};
use crate::pure::nn::overlay;
use crate::pure::slim::{channels_for, same_list, slim_net, SlimModel, SlimmableWaveNet};
use crate::pure::wavenet::{first_channel, mono_block};
use vstd::prelude::*;

verus! {

// Models as mathematical maps ================================================

/// A model as a mathematical map.
pub enum DspModel<S: Scalar> {
    /// A network.
    Net(NetModel<S>),
    /// A network that can be reduced, its channels, and the network with them.
    Slim(SlimModel<S>, Seq<usize>, NetModel<S>),
    /// A recurrent network.
    Lstm(LstmModel<S>),
    /// Models by the ratio below which each is selected, and which is.
    Container(Seq<(S::Wide, DspModel<S>)>, nat),
}

/// What a model that is running remembers.
pub enum DspState<S> {
    /// Of a network.
    Net(NetState<S>),
    /// Of a recurrent network.
    Lstm(Seq<CellState<S>>),
}

/// What a block leaves behind in a model.
pub struct DspRun<S: Scalar> {
    /// What the model remembers for the next block.
    pub state: DspState<S>,
    /// The output.
    pub output: Seq<S::Wide>,
}

/// The model that a container selects, through all levels.
pub open spec fn leaf<S: Scalar>(m: DspModel<S>) -> DspModel<S>
    decreases m,
{
    match m {
        DspModel::Container(subs, active) => if active < subs.len() {
            leaf(subs[active as int].1)
        } else {
            m
        },
        _ => m,
    }
}

/// What a model makes of a block of samples.
pub open spec fn dsp_run<S: Scalar>(m: DspModel<S>, st: DspState<S>, x: Seq<S::Wide>) -> DspRun<S> {
    match leaf(m) {
        DspModel::Lstm(l) => DspRun {
            state: DspState::Lstm(lstm_after::<S>(l.cells, st->Lstm_0, x, x.len())),
            output: lstm_run(l, st->Lstm_0, x),
        },
        DspModel::Net(n) => {
            let run = net_run(n, st->Net_0, mono_block::<S>(n.inputs, x));
            DspRun { state: DspState::Net(run.state), output: first_channel(run.output) }
        },
        DspModel::Slim(_, _, n) => {
            let run = net_run(n, st->Net_0, mono_block::<S>(n.inputs, x));
            DspRun { state: DspState::Net(run.state), output: first_channel(run.output) }
        },
        DspModel::Container(_, _) => DspRun { state: st, output: x },
    }
}

/// What a model remembers that has heard nothing.
pub open spec fn dsp_rest<S: Scalar>(m: DspModel<S>) -> DspState<S> {
    match leaf(m) {
        DspModel::Lstm(l) => DspState::Lstm(lstm_rest(l)),
        DspModel::Net(n) => DspState::Net(net_rest(n)),
        DspModel::Slim(_, _, n) => DspState::Net(net_rest(n)),
        DspModel::Container(_, _) => DspState::Lstm(Seq::empty()),
    }
}

/// How many samples of silence bring a model to rest.
pub open spec fn dsp_reach<S: Scalar>(m: DspModel<S>) -> int {
    match leaf(m) {
        DspModel::Lstm(l) => lstm_reach(l.rate) as int,
        DspModel::Net(n) => net_reach(n),
        DspModel::Slim(_, _, n) => net_reach(n),
        DspModel::Container(_, _) => 0,
    }
}

/// Channels read.
pub open spec fn dsp_inputs<S: Scalar>(m: DspModel<S>) -> nat {
    match leaf(m) {
        DspModel::Lstm(l) => l.inputs,
        DspModel::Net(n) => n.inputs,
        DspModel::Slim(_, _, n) => n.inputs,
        DspModel::Container(_, _) => 0,
    }
}

/// Channels written.
pub open spec fn dsp_outputs<S: Scalar>(m: DspModel<S>) -> nat {
    match leaf(m) {
        DspModel::Lstm(l) => l.outputs,
        DspModel::Net(n) => n.outputs,
        DspModel::Slim(_, _, n) => n.outputs,
        DspModel::Container(_, _) => 0,
    }
}

/// A network can run on mono signals: it has a channel to read and one to
/// write, and every part finds the channels that it reads.
pub open spec fn net_runs<S>(n: NetModel<S>) -> bool {
    &&& n.inputs >= 1
    &&& n.outputs >= 1
    &&& net_wired(n)
}

/// A model can run.
pub open spec fn dsp_runs<S: Scalar>(m: DspModel<S>) -> bool {
    match leaf(m) {
        DspModel::Lstm(l) => l.outputs >= 1,
        DspModel::Net(n) => net_runs(n),
        DspModel::Slim(_, _, n) => net_runs(n),
        DspModel::Container(_, _) => false,
    }
}

/// Every activation of a model has a value everywhere.
pub open spec fn dsp_total<S: Scalar>(m: DspModel<S>) -> bool {
    match leaf(m) {
        DspModel::Net(n) => net_total(n),
        DspModel::Slim(_, _, n) => net_total(n),
        _ => true,
    }
}

/// Every activation of a model has a value at everything that a block of
/// samples brings it.
pub open spec fn dsp_defined<S: Scalar>(
    m: DspModel<S>,
    st: DspState<S>,
    x: Seq<S::Wide>,
) -> bool {
    match leaf(m) {
        DspModel::Net(n) => net_defined(n, st->Net_0, mono_block::<S>(n.inputs, x)),
        DspModel::Slim(_, _, n) => net_defined(n, st->Net_0, mono_block::<S>(n.inputs, x)),
        _ => true,
    }
}

/// The buffers of a model can be addressed.
pub open spec fn dsp_fits<S: Scalar>(m: DspModel<S>, max: nat) -> bool {
    match leaf(m) {
        DspModel::Lstm(_) => true,
        DspModel::Net(n) => net_fits(n, max),
        DspModel::Slim(_, _, n) => net_fits(n, max),
        DspModel::Container(_, _) => false,
    }
}

/// The first model from number `i` on whose bound is above the ratio, or else
/// the last.
pub open spec fn picked<S: Scalar>(subs: Seq<(S::Wide, DspModel<S>)>, val: S::Wide, i: nat) -> nat
    decreases subs.len() - i,
{
    if i >= subs.len() {
        (subs.len() - 1) as nat
    } else if val.lt_spec(subs[i as int].0) {
        i
    } else {
        picked(subs, val, i + 1)
    }
}

/// The model after a ratio has been selected. A size that cannot be built is
/// not selected.
pub open spec fn selected<S: Scalar>(m: DspModel<S>, val: S::Wide) -> DspModel<S> {
    match m {
        DspModel::Container(subs, _) => DspModel::Container(subs, picked(subs, val, 0)),
        DspModel::Slim(sm, channels, _) => {
            let targets = channels_for(sm, val);
            if targets == channels {
                m
            } else {
                match slim_net(sm, targets) {
                    Ok(net) => DspModel::Slim(sm, targets, net),
                    Err(_) => m,
                }
            }
        },
        _ => m,
    }
}

/// Whether selecting a ratio changes the model.
pub open spec fn selection_changes<S: Scalar>(m: DspModel<S>, val: S::Wide) -> bool {
    match m {
        DspModel::Container(subs, active) => picked(subs, val, 0) != active,
        DspModel::Slim(sm, channels, _) => channels_for(sm, val) != channels && slim_net(
            sm,
            channels_for(sm, val),
        ) is Ok,
        _ => false,
    }
}

// Models with their buffers ==================================================

/// A model.
pub enum Dsp<S: Scalar> {
    /// A network.
    WaveNet(WaveNet<S>),
    /// A network that can be reduced.
    SlimmableWaveNet(Box<SlimmableWaveNet<S>>),
    /// A recurrent network.
    Lstm(Lstm<S>),
    /// Models by the ratio below which each is selected.
    Container {
        /// The models with their bounds, in ascending order.
        subs: Vec<(S::Wide, Box<Dsp<S>>)>,
        /// The selected one.
        active: usize,
    },
}

impl<S: Scalar> Dsp<S> {
    /// The map that this model computes.
    pub open spec fn model(&self) -> DspModel<S>
        decreases self,
    {
        match self {
            Dsp::WaveNet(w) => DspModel::Net(w.model()),
            Dsp::SlimmableWaveNet(s) => DspModel::Slim(
                s.model(),
                s.current_channels@,
                s.current.model(),
            ),
            Dsp::Lstm(l) => DspModel::Lstm(l.model()),
            Dsp::Container { subs, active } => DspModel::Container(
                Seq::new(
                    subs@.len(),
                    |i: int|
                        if 0 <= i < subs@.len() {
                            (subs@[i].0, subs@[i].1.model())
                        } else {
                            arbitrary()
                        },
                ),
                *active as nat,
            ),
        }
    }

    /// The shapes agree.
    pub open spec fn wf(&self) -> bool
        decreases self,
    {
        match self {
            Dsp::WaveNet(w) => w.built(),
            Dsp::SlimmableWaveNet(s) => s.wf(),
            Dsp::Lstm(l) => l.wf(),
            Dsp::Container { subs, active } => {
                &&& *active < subs@.len()
                &&& forall|i: int| 0 <= i < subs@.len() ==> (#[trigger] subs@[i]).1.wf()
            },
        }
    }

    /// What the selected model remembers.
    pub open spec fn state(&self) -> DspState<S>
        decreases self,
    {
        match self {
            Dsp::WaveNet(w) => DspState::Net(w.state()),
            Dsp::SlimmableWaveNet(s) => DspState::Net(s.current.state()),
            Dsp::Lstm(l) => DspState::Lstm(l.state()),
            Dsp::Container { subs, active } => if *active < subs@.len() {
                subs@[*active as int].1.state()
            } else {
                DspState::Lstm(Seq::empty())
            },
        }
    }

    /// The selected model has room for blocks of this many samples.
    pub open spec fn sized(&self, max: nat) -> bool
        decreases self,
    {
        match self {
            Dsp::WaveNet(w) => w.sized(max) && w.quiet(),
            Dsp::SlimmableWaveNet(s) => s.current.sized(max) && s.current.quiet(),
            Dsp::Lstm(l) => true,
            Dsp::Container { subs, active } => *active < subs@.len()
                && subs@[*active as int].1.sized(max),
        }
    }

    /// Channels read.
    pub fn in_channels(&self) -> (r: usize)
        requires
            self.wf(),
        ensures
            r == dsp_inputs(self.model()),
        decreases self,
    {
        match self {
            Dsp::WaveNet(w) => w.in_channels(),
            Dsp::SlimmableWaveNet(s) => s.current.in_channels(),
            Dsp::Lstm(l) => l.in_channels(),
            Dsp::Container { subs, active } => {
                proof {
                    self.lemma_active();
                }
                subs[*active].1.in_channels()
            },
        }
    }

    /// Channels written.
    pub fn out_channels(&self) -> (r: usize)
        requires
            self.wf(),
        ensures
            r == dsp_outputs(self.model()),
        decreases self,
    {
        match self {
            Dsp::WaveNet(w) => w.out_channels(),
            Dsp::SlimmableWaveNet(s) => s.current.out_channels(),
            Dsp::Lstm(l) => l.out_channels(),
            Dsp::Container { subs, active } => {
                proof {
                    self.lemma_active();
                }
                subs[*active].1.out_channels()
            },
        }
    }

    /// How many samples of silence bring the model to rest.
    pub fn prewarm_samples(&self) -> (r: usize)
        requires
            lawful::<S>(),
            self.wf(),
        ensures
            r == dsp_reach(self.model()),
        decreases self,
    {
        match self {
            Dsp::WaveNet(w) => w.prewarm_samples(),
            Dsp::SlimmableWaveNet(s) => s.current.prewarm_samples(),
            Dsp::Lstm(l) => l.prewarm_samples(),
            Dsp::Container { subs, active } => {
                proof {
                    self.lemma_active();
                }
                subs[*active].1.prewarm_samples()
            },
        }
    }

    /// Whether the model can run.
    pub fn runs(&self) -> (r: bool)
        requires
            self.wf(),
        ensures
            r == dsp_runs(self.model()),
        decreases self,
    {
        match self {
            Dsp::WaveNet(w) => w.in_channels >= 1 && w.out_channels >= 1 && w.is_wired(),
            Dsp::SlimmableWaveNet(s) => s.current.in_channels >= 1 && s.current.out_channels >= 1
                && s.current.is_wired(),
            Dsp::Lstm(l) => l.out_channels >= 1,
            Dsp::Container { subs, active } => {
                proof {
                    self.lemma_active();
                }
                subs[*active].1.runs()
            },
        }
    }

    /// Whether every activation has a value everywhere.
    pub fn is_total(&self) -> (r: bool)
        requires
            self.wf(),
        ensures
            r == dsp_total(self.model()),
        decreases self,
    {
        match self {
            Dsp::WaveNet(w) => w.is_total(),
            Dsp::SlimmableWaveNet(s) => s.current.is_total(),
            Dsp::Lstm(_) => true,
            Dsp::Container { subs, active } => {
                proof {
                    self.lemma_active();
                }
                subs[*active].1.is_total()
            },
        }
    }

    /// Whether blocks of up to `max` samples can be addressed.
    pub fn fits(&self, max: usize) -> (r: bool)
        requires
            self.wf(),
        ensures
            r == dsp_fits(self.model(), max as nat),
        decreases self,
    {
        match self {
            Dsp::WaveNet(w) => w.fits(max),
            Dsp::SlimmableWaveNet(s) => s.current.fits(max),
            Dsp::Lstm(_) => true,
            Dsp::Container { subs, active } => {
                proof {
                    self.lemma_active();
                }
                subs[*active].1.fits(max)
            },
        }
    }

    /// Forget everything heard and make room for blocks of up to `max_frames`
    /// samples.
    pub fn set_max_buffer_size(&mut self, max_frames: usize)
        requires
            lawful::<S>(),
            old(self).wf(),
            dsp_fits(old(self).model(), max_frames as nat),
        ensures
            final(self).wf(),
            final(self).model() == old(self).model(),
            final(self).sized(max_frames as nat),
            final(self).state() == dsp_rest(old(self).model()),
        decreases old(self).model(),
    {
        let ghost m = self.model();
        proof {
            self.lemma_active();
        }
        match self {
            Dsp::WaveNet(w) => w.set_max_buffer_size(max_frames),
            Dsp::SlimmableWaveNet(s) => s.current.set_max_buffer_size(max_frames),
            Dsp::Lstm(l) => l.reset_state(),
            Dsp::Container { subs, active } => {
                let i = *active;
                subs[i].1.set_max_buffer_size(max_frames);
            },
        }
        proof {
            if m is Container {
                assert(self.model()->Container_0 =~= m->Container_0);
            }
        }
    }

    /// Run the model on a block of samples.
    pub(crate) fn process_block(
        &mut self,
        input: &[S::Wide],
        output: &mut [S::Wide],
        Ghost(max): Ghost<nat>,
    )
        requires
            lawful::<S>(),
            old(self).wf(),
            old(self).sized(max),
            dsp_runs(old(self).model()),
            dsp_defined(old(self).model(), old(self).state(), input@),
            input@.len() <= max,
            input@.len() <= old(output)@.len(),
        ensures
            final(self).wf(),
            final(self).model() == old(self).model(),
            final(self).sized(max),
            ({
                let run = dsp_run(old(self).model(), old(self).state(), input@);
                &&& final(self).state() == run.state
                &&& final(output)@ == overlay(old(output)@, run.output)
            }),
        decreases old(self).model(),
    {
        let ghost m = self.model();
        proof {
            self.lemma_active();
        }
        match self {
            Dsp::WaveNet(w) => w.process_block(input, output),
            Dsp::SlimmableWaveNet(s) => s.current.process_block(input, output),
            Dsp::Lstm(l) => l.process_block(input, output),
            Dsp::Container { subs, active } => {
                let i = *active;
                subs[i].1.process_block(input, output, Ghost(max));
            },
        }
        proof {
            if m is Container {
                assert(self.model()->Container_0 =~= m->Container_0);
            }
        }
    }

    /// Whether the size of the model can be selected.
    pub fn is_slimmable(&self) -> (r: bool)
        ensures
            r == (self.model() is Container || self.model() is Slim),
    {
        match self {
            Dsp::Container { .. } => true,
            Dsp::SlimmableWaveNet(_) => true,
            _ => false,
        }
    }

    /// Select the size of the model. Says whether the model changed, in which
    /// case it has to be reset before it is used.
    pub fn set_slimmable_size(&mut self, val: S::Wide) -> (r: bool)
        requires
            lawful::<S>(),
            old(self).wf(),
        ensures
            final(self).wf(),
            final(self).model() == selected(old(self).model(), val),
            r == selection_changes(old(self).model(), val),
            !r ==> *final(self) == *old(self),
    {
        let ghost m = self.model();
        match self {
            Dsp::Container { subs, active } => {
                let ghost list = m->Container_0;
                let idx = Self::pick(subs, val, Ghost(list));
                let changed = idx != *active;
                *active = idx;
                changed
            },
            Dsp::SlimmableWaveNet(s) => match s.set_slimmable_size(val) {
                Ok(b) => b,
                Err(_) => false,
            },
            _ => false,
        }
    }

    /// Which model of a container a ratio selects.
    fn pick(subs: &Vec<(S::Wide, Box<Dsp<S>>)>, val: S::Wide, Ghost(list): Ghost<
        Seq<(S::Wide, DspModel<S>)>,
    >) -> (r: usize)
        requires
            lawful::<S>(),
            subs@.len() > 0,
            list.len() == subs@.len(),
            forall|j: int| 0 <= j < subs@.len() ==> (#[trigger] list[j]).0 == subs@[j].0,
        ensures
            r == picked(list, val, 0),
            r < subs@.len(),
    {
        let mut idx: usize = 0;
        while idx < subs.len()
            invariant
                lawful::<S>(),
                idx <= subs@.len(),
                list.len() == subs@.len(),
                forall|j: int| 0 <= j < subs@.len() ==> (#[trigger] list[j]).0 == subs@[j].0,
                picked(list, val, 0) == picked(list, val, idx as nat),
            decreases subs@.len() - idx,
        {
            assert(list[idx as int].0 == subs@[idx as int].0);
            if val.lt(subs[idx].0) {
                return idx;
            }
            idx += 1;
        }
        subs.len() - 1
    }

    /// Whether the model that a ratio selects, where that is another one, can
    /// run on blocks of up to `max` samples.
    pub fn can_select(&self, val: S::Wide, max: usize) -> (r: bool)
        requires
            lawful::<S>(),
            self.wf(),
        ensures
            r == (selection_changes(self.model(), val) ==> dsp_runs(selected(self.model(), val))
                && dsp_fits(selected(self.model(), val), max as nat)),
    {
        let ghost m = self.model();
        match self {
            Dsp::Container { subs, active } => {
                let ghost list = m->Container_0;
                let idx = Self::pick(subs, val, Ghost(list));
                if idx == *active {
                    return true;
                }
                proof {
                    let now = selected(m, val);
                    assert(list[idx as int].1 == subs@[idx as int].1.model());
                    assert(leaf(now) == leaf(list[idx as int].1));
                }
                subs[idx].1.runs() && subs[idx].1.fits(max)
            },
            Dsp::SlimmableWaveNet(s) => {
                let targets = s.channels_for_size(val);
                if same_list(&targets, &s.current_channels) {
                    return true;
                }
                match s.build_size(&targets) {
                    Ok(net) => net.in_channels >= 1 && net.out_channels >= 1 && net.is_wired()
                        && net.fits(max),
                    Err(_) => true,
                }
            },
            _ => true,
        }
    }

    /// Whether every activation of the model that a ratio selects, where that is
    /// another one, has a value everywhere.
    pub fn selects_total(&self, val: S::Wide) -> (r: bool)
        requires
            lawful::<S>(),
            self.wf(),
        ensures
            r == (selection_changes(self.model(), val) ==> dsp_total(selected(self.model(), val))),
    {
        let ghost m = self.model();
        match self {
            Dsp::Container { subs, active } => {
                let ghost list = m->Container_0;
                let idx = Self::pick(subs, val, Ghost(list));
                if idx == *active {
                    return true;
                }
                proof {
                    let now = selected(m, val);
                    assert(list[idx as int].1 == subs@[idx as int].1.model());
                    assert(leaf(now) == leaf(list[idx as int].1));
                }
                subs[idx].1.is_total()
            },
            Dsp::SlimmableWaveNet(s) => {
                let targets = s.channels_for_size(val);
                if same_list(&targets, &s.current_channels) {
                    return true;
                }
                match s.build_size(&targets) {
                    Ok(net) => net.is_total(),
                    Err(_) => true,
                }
            },
            _ => true,
        }
    }

    /// The selected model is part of the container.
    pub proof fn lemma_active(&self)
        requires
            self.wf(),
        ensures
            self matches Dsp::Container { subs, active } ==> {
                let sub = subs@[*active as int].1;
                &&& sub.wf()
                &&& decreases_to!(self => sub)
                &&& leaf(self.model()) == leaf(sub.model())
                &&& decreases_to!(self.model() => sub.model())
            },
    {
        if let Dsp::Container { subs, active } = self {
            assert(decreases_to!(*self => self->subs));
            assert(decreases_to!(subs => subs@));
            assert(decreases_to!(subs@ => subs@[*active as int]));
            assert(decreases_to!(subs@[*active as int] => subs@[*active as int].1));
            let list = self.model()->Container_0;
            assert(list[*active as int].1 == subs@[*active as int].1.model());
            assert(decreases_to!(self.model() => self.model()->Container_0));
            assert(decreases_to!(list => list[*active as int]));
            assert(decreases_to!(list[*active as int] => list[*active as int].1));
        }
    }
}

} // verus!
