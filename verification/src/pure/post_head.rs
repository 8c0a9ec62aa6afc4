//! The head after the stacks of layers: activations and convolutions in turn.

use crate::num::{lawful, Scalar};
use crate::pure::activations::{activated_block, block_defined, total, Act, Activation};
use crate::pure::array_setup::checked_sum;
use crate::pure::conv1d::{dilated_block, lookback, rolled, Conv1D, Dilated};
use crate::pure::layer_setup::dilated_fits;
use crate::pure::mat::{silence, Mat};
use crate::pure::nn::{top_rows, underflow_text, Weights};
use crate::pure::plan::{head_count, head_from, head_inputs, head_outputs, head_start_at, HeadPlan};
use vstd::prelude::*;

verus! {

// The head as a mathematical map =============================================

/// The head as a mathematical map.
pub struct HeadModel<S> {
    /// Channels read.
    pub inputs: nat,
    /// The stages, each an activation and a convolution.
    pub stages: Seq<(Act<S>, Dilated<S>)>,
}

/// The input of stage `i`, before its activation.
pub open spec fn head_input<S: Scalar>(
    m: HeadModel<S>,
    histories: Seq<Seq<Seq<S>>>,
    x: Seq<Seq<S>>,
    i: nat,
) -> Seq<Seq<S>>
    decreases i,
{
    if i == 0 {
        x
    } else {
        dilated_block(
            m.stages[i - 1].1,
            histories[i - 1],
            activated_block(m.stages[i - 1].0, head_input(m, histories, x, (i - 1) as nat)),
        )
    }
}

/// The input of the convolution of stage `i`.
pub open spec fn head_shaped<S: Scalar>(
    m: HeadModel<S>,
    histories: Seq<Seq<Seq<S>>>,
    x: Seq<Seq<S>>,
    i: int,
) -> Seq<Seq<S>> {
    activated_block(m.stages[i].0, head_input(m, histories, x, i as nat))
}

/// The histories that a block leaves behind.
pub open spec fn head_rolled<S: Scalar>(
    m: HeadModel<S>,
    histories: Seq<Seq<Seq<S>>>,
    x: Seq<Seq<S>>,
) -> Seq<Seq<Seq<S>>> {
    Seq::new(
        m.stages.len(),
        |i: int| rolled(histories[i], head_shaped(m, histories, x, i)),
    )
}

/// The output of the head.
pub open spec fn head_output<S: Scalar>(
    m: HeadModel<S>,
    histories: Seq<Seq<Seq<S>>>,
    x: Seq<Seq<S>>,
) -> Seq<Seq<S>> {
    head_input(m, histories, x, m.stages.len())
}

/// The histories of a head that has heard nothing.
pub open spec fn head_rest<S: Scalar>(m: HeadModel<S>) -> Seq<Seq<Seq<S>>> {
    Seq::new(
        m.stages.len(),
        |i: int| silence::<S>(m.stages[i].1.inputs, lookback(m.stages[i].1) as nat),
    )
}

/// How many frames the stages look back.
pub open spec fn stages_reach<S>(stages: Seq<(Act<S>, Dilated<S>)>) -> int
    decreases stages.len(),
{
    if stages.len() == 0 {
        0
    } else {
        stages_reach(stages.drop_last()) + lookback(stages.last().1)
    }
}

/// The buffers of a head can be addressed.
pub open spec fn head_fits<S>(m: HeadModel<S>, max: nat) -> bool {
    &&& max * m.inputs <= usize::MAX
    &&& forall|i: int| 0 <= i < m.stages.len() ==> dilated_fits((#[trigger] m.stages[i]).1, max)
}

/// Every activation of a head has a value everywhere.
pub open spec fn head_total<S>(m: HeadModel<S>) -> bool {
    forall|i: int| 0 <= i < m.stages.len() ==> total((#[trigger] m.stages[i]).0)
}

/// Every activation of a head has a value at everything that a block brings
/// it.
pub open spec fn head_defined<S: Scalar>(
    m: HeadModel<S>,
    histories: Seq<Seq<Seq<S>>>,
    x: Seq<Seq<S>>,
) -> bool {
    forall|i: int|
        0 <= i < m.stages.len() ==> block_defined(
            (#[trigger] m.stages[i]).0,
            head_input(m, histories, x, i as nat),
        )
}

// The head with its buffers ==================================================

/// The head with its buffers.
pub struct PostHead<S> {
    /// The convolutions, in order.
    pub convs: Vec<Conv1D<S>>,
    /// The activation before each convolution.
    pub activations: Vec<Activation<S>>,
    /// Channels read.
    pub in_channels: usize,
    /// The input of the head.
    pub scratch: Mat<S>,
}

/// Channels that convolution `i` is given.
pub open spec fn given<S>(convs: Seq<Conv1D<S>>, inputs: usize, i: int) -> usize {
    if i == 0 {
        inputs
    } else {
        convs[i - 1].out_ch
    }
}

/// The convolutions fit each other.
pub open spec fn convs_wf<S: Scalar>(convs: Seq<Conv1D<S>>, inputs: usize) -> bool {
    &&& forall|i: int|
        0 <= i < convs.len() ==> {
            &&& (#[trigger] convs[i]).wf()
            &&& convs[i].dilation == 1
        }
    &&& forall|i: int|
        0 <= i < convs.len() ==> #[trigger] given(convs, inputs, i) == convs[i].in_ch
}

/// The buffers of the convolutions have room for blocks of this many frames.
pub open spec fn convs_sized<S: Scalar>(convs: Seq<Conv1D<S>>, max: nat) -> bool {
    forall|i: int| 0 <= i < convs.len() ==> (#[trigger] convs[i]).sized(max)
}

impl<S: Scalar> PostHead<S> {
    /// The shapes agree.
    pub open spec fn wf(&self) -> bool {
        &&& self.convs@.len() > 0
        &&& self.activations@.len() == self.convs@.len()
        &&& convs_wf(self.convs@, self.in_channels)
        &&& self.scratch.wf()
        &&& self.scratch.rows == self.in_channels
    }

    /// The buffers have room for blocks of this many frames.
    pub open spec fn sized(&self, max: nat) -> bool {
        &&& convs_sized(self.convs@, max)
        &&& self.scratch.cols == max
    }

    /// The map that this head computes.
    pub open spec fn model(&self) -> HeadModel<S> {
        HeadModel {
            inputs: self.in_channels as nat,
            stages: Seq::new(
                self.convs@.len(),
                |i: int| (self.activations@[i].model(), self.convs@[i].model()),
            ),
        }
    }

    /// What this head remembers.
    pub open spec fn state(&self) -> Seq<Seq<Seq<S>>> {
        Seq::new(self.convs@.len(), |i: int| self.convs@[i].history())
    }

    /// How many frames this head looks back, itself counted, where that can be
    /// counted.
    pub fn receptive_field(&self) -> (r: Option<usize>)
        requires
            self.wf(),
        ensures
            match r {
                Some(v) => v == 1 + stages_reach(self.model().stages),
                None => 1 + stages_reach(self.model().stages) > usize::MAX,
            },
            stages_reach(self.model().stages) >= 0,
    {
        let ghost stages = self.model().stages;
        let mut rf: Option<usize> = Some(1);
        let mut i: usize = 0;
        while i < self.convs.len()
            invariant
                self.wf(),
                i <= self.convs@.len(),
                stages == self.model().stages,
                stages_reach(stages.take(i as int)) >= 0,
                match rf {
                    Some(v) => v == 1 + stages_reach(stages.take(i as int)),
                    None => 1 + stages_reach(stages.take(i as int)) > usize::MAX,
                },
            decreases self.convs@.len() - i,
        {
            rf = checked_sum(rf, Some(self.convs[i].kernel_size() - 1));
            proof {
                let part = stages.take(i + 1);
                assert(part.drop_last() =~= stages.take(i as int));
                assert(part.last().1 == self.convs@[i as int].model());
                assert(self.convs@[i as int].wf());
                assert(lookback(part.last().1) == self.convs@[i as int].weight@.len() - 1);
            }
            i += 1;
        }
        assert(stages.take(i as int) =~= stages);
        rf
    }

    /// Forget the history and make room for blocks of up to `max_frames`
    /// frames.
    pub fn set_max_buffer_size(&mut self, max_frames: usize)
        requires
            lawful::<S>(),
            old(self).wf(),
            head_fits(old(self).model(), max_frames as nat),
        ensures
            final(self).wf(),
            final(self).model() == old(self).model(),
            final(self).sized(max_frames as nat),
            final(self).state() == head_rest(old(self).model()),
    {
        let ghost m = self.model();
        let mut i: usize = 0;
        while i < self.convs.len()
            invariant
                lawful::<S>(),
                i <= self.convs@.len(),
                self.wf(),
                self.model() == m,
                head_fits(m, max_frames as nat),
                forall|j: int|
                    0 <= j < i ==> {
                        &&& (#[trigger] self.convs@[j]).sized(max_frames as nat)
                        &&& self.convs@[j].history() == silence::<S>(
                            m.stages[j].1.inputs,
                            lookback(m.stages[j].1) as nat,
                        )
                    },
            decreases self.convs@.len() - i,
        {
            assert(m.stages[i as int].1 == self.convs@[i as int].model());
            let ghost was = self.convs@;
            self.convs[i].set_max_buffer_size(max_frames);
            assert forall|j: int| 0 <= j < was.len() implies #[trigger] given(
                self.convs@,
                self.in_channels,
                j,
            ) == self.convs@[j].in_ch by {
                assert(given(was, self.in_channels, j) == was[j].in_ch);
            }
            assert(self.model().stages =~= m.stages);
            i += 1;
        }
        self.scratch.reset(self.in_channels, max_frames);
        assert(self.state() =~= head_rest(m));
        assert(self.model().stages =~= m.stages);
    }

    /// Run the head on the first `num_frames` frames of its input buffer.
    pub fn process(&mut self, num_frames: usize)
        requires
            lawful::<S>(),
            old(self).wf(),
            old(self).sized(old(self).scratch.cols as nat),
            head_defined(
                old(self).model(),
                old(self).state(),
                old(self).scratch.left(num_frames as int),
            ),
            num_frames <= old(self).scratch.cols,
        ensures
            final(self).wf(),
            final(self).sized(old(self).scratch.cols as nat),
            final(self).model() == old(self).model(),
            final(self).state() == head_rolled(
                old(self).model(),
                old(self).state(),
                old(self).scratch.left(num_frames as int),
            ),
            final(self).convs@.last().out.left(num_frames as int) == head_output(
                old(self).model(),
                old(self).state(),
                old(self).scratch.left(num_frames as int),
            ),
    {
        let ghost m = self.model();
        let ghost st = self.state();
        let ghost x = self.scratch.left(num_frames as int);
        let ghost n = num_frames as int;
        let ghost max = self.scratch.cols as nat;
        let mut i: usize = 0;
        while i < self.convs.len()
            invariant
                lawful::<S>(),
                i <= self.convs@.len(),
                self.wf(),
                self.sized(max),
                self.model() == m,
                head_defined(m, st, x),
                st.len() == m.stages.len(),
                n == num_frames,
                n <= max,
                forall|j: int|
                    0 <= j < st.len() ==> #[trigger] self.state()[j] == if j < i {
                        rolled(st[j], head_shaped(m, st, x, j))
                    } else {
                        st[j]
                    },
                i == 0 ==> self.scratch.left(n) == x,
                i > 0 ==> self.convs@[i - 1].out.left(n) == head_input(m, st, x, i as nat),
            decreases self.convs@.len() - i,
        {
            let ghost was = self.convs@;
            assert(m.stages[i as int] == (
                self.activations@[i as int].model(),
                was[i as int].model(),
            ));
            let ghost mid = self.state();
            let ghost y = head_input(m, st, x, i as nat);
            assert(mid[i as int] == st[i as int]);
            assert(mid[i as int] == was[i as int].history());
            assert(i == 0 ==> self.scratch.left(n) == y);
            assert(given(was, self.in_channels, i as int) == was[i as int].in_ch);
            run_stage(
                &mut self.convs,
                &mut self.scratch,
                &self.activations[i],
                i,
                num_frames,
                Ghost(max),
            );
            proof {
                assert forall|j: int| 0 <= j < was.len() implies {
                    &&& (#[trigger] self.convs@[j]).wf()
                    &&& self.convs@[j].model() == was[j].model()
                    &&& self.convs@[j].dilation == 1
                    &&& self.convs@[j].in_ch == was[j].in_ch
                    &&& self.convs@[j].out_ch == was[j].out_ch
                    &&& self.convs@[j].sized(max)
                    &&& j != i ==> self.convs@[j].history() == was[j].history()
                } by {
                    assert(was[j].wf());
                    assert(was[j].sized(max));
                }
                assert forall|j: int| 0 <= j < was.len() implies #[trigger] given(
                    self.convs@,
                    self.in_channels,
                    j,
                ) == self.convs@[j].in_ch by {
                    assert(given(was, self.in_channels, j) == was[j].in_ch);
                }
                assert(self.model().stages =~= m.stages);
                assert forall|j: int| 0 <= j < st.len() implies #[trigger] self.state()[j] == if j
                    < i + 1 {
                    rolled(st[j], head_shaped(m, st, x, j))
                } else {
                    st[j]
                } by {
                    assert(self.state()[j] == self.convs@[j].history());
                    assert(mid[j] == was[j].history());
                }
                assert(head_input(m, st, x, (i + 1) as nat) == dilated_block(
                    m.stages[i as int].1,
                    st[i as int],
                    activated_block(m.stages[i as int].0, y),
                ));
            }
            i += 1;
        }
        assert(self.state() =~= head_rolled(m, st, x));
    }
}

/// Run stage `i`, which reads the output of the stage before, the first stage
/// `scratch`. The activation overwrites what the stage reads.
fn run_stage<S: Scalar>(
    convs: &mut Vec<Conv1D<S>>,
    scratch: &mut Mat<S>,
    act: &Activation<S>,
    i: usize,
    num_frames: usize,
    Ghost(max): Ghost<nat>,
)
    requires
        lawful::<S>(),
        i < old(convs)@.len(),
        block_defined(
            act.model(),
            if i == 0 {
                old(scratch).left(num_frames as int)
            } else {
                old(convs)@[i - 1].out.left(num_frames as int)
            },
        ),
        old(convs)@[i as int].wf(),
        old(convs)@[i as int].sized(max),
        old(scratch).wf(),
        num_frames <= old(scratch).cols,
        num_frames <= max,
        i == 0 ==> old(scratch).rows == old(convs)@[i as int].in_ch,
        i > 0 ==> {
            &&& old(convs)@[i - 1].wf()
            &&& old(convs)@[i - 1].sized(max)
            &&& old(convs)@[i - 1].out_ch == old(convs)@[i as int].in_ch
        },
    ensures
        final(convs)@.len() == old(convs)@.len(),
        forall|j: int|
            0 <= j < old(convs)@.len() && j != i && j != i - 1 ==> #[trigger] final(convs)@[j]
                == old(convs)@[j],
        i > 0 ==> {
            &&& final(convs)@[i - 1] == (Conv1D {
                out: final(convs)@[i - 1].out,
                ..old(convs)@[i - 1]
            })
            &&& final(convs)@[i - 1].out.shaped(old(convs)@[i - 1].out_ch as nat, max)
        },
        final(scratch).shaped(old(scratch).rows as nat, old(scratch).cols as nat),
        final(convs)@[i as int].wf(),
        final(convs)@[i as int].sized(max),
        final(convs)@[i as int].same_map(&old(convs)@[i as int]),
        ({
            let x = activated_block(
                act.model(),
                if i == 0 {
                    old(scratch).left(num_frames as int)
                } else {
                    old(convs)@[i - 1].out.left(num_frames as int)
                },
            );
            let c = old(convs)@[i as int];
            &&& final(convs)@[i as int].history() == rolled(c.history(), x)
            &&& final(convs)@[i as int].out.left(num_frames as int) == dilated_block(
                c.model(),
                c.history(),
                x,
            )
        }),
{
    let ghost n = num_frames as int;
    if i == 0 {
        let ghost x = activated_block(act.model(), scratch.left(n));
        act.apply_left(scratch, num_frames);
        assert(top_rows(scratch@, n as nat, scratch.rows as nat) =~= x) by {
            assert forall|f: int| 0 <= f < n implies #[trigger] top_rows(
                scratch@,
                n as nat,
                scratch.rows as nat,
            )[f] == x[f] by {
                assert(scratch@[f].take(scratch.rows as int) =~= scratch@[f]);
            }
        }
        convs[i].process(scratch, num_frames);
        assert(convs@[i as int].out.left(n) =~= dilated_block(
            old(convs)@[i as int].model(),
            old(convs)@[i as int].history(),
            x,
        ));
    } else {
        let ghost x = activated_block(act.model(), convs@[i - 1].out.left(n));
        let ghost width = convs@[i - 1].out.rows as nat;
        let (before, rest) = convs.as_mut_slice().split_at_mut(i);
        act.apply_left(&mut before[i - 1].out, num_frames);
        assert(top_rows(before@[i - 1].out@, n as nat, width) =~= x) by {
            assert forall|f: int| 0 <= f < n implies #[trigger] top_rows(
                before@[i - 1].out@,
                n as nat,
                width,
            )[f] == x[f] by {
                assert(before@[i - 1].out@[f].take(width as int) =~= before@[i - 1].out@[f]);
            }
        }
        rest[0].process(&before[i - 1].out, num_frames);
        assert(rest@[0].out.left(n) =~= dilated_block(
            old(convs)@[i as int].model(),
            old(convs)@[i as int].history(),
            x,
        ));
    }
}

// Weights ====================================================================

/// Convolutions start one after the other.
pub proof fn lemma_head_start<S>(p: HeadPlan<S>, j: nat, k: nat)
    requires
        j <= k,
    ensures
        head_start_at(p, j) <= head_start_at(p, k),
    decreases k - j,
{
    if j < k {
        lemma_head_start(p, j, (k - 1) as nat);
    }
}

impl<S: Scalar> PostHead<S> {
    /// The head has this shape.
    pub open spec fn planned(&self, p: HeadPlan<S>) -> bool {
        &&& self.wf()
        &&& self.in_channels == p.inputs
        &&& self.convs@.len() == p.kernels.len()
        &&& forall|i: int|
            0 <= i < self.convs@.len() ==> {
                &&& (#[trigger] self.convs@[i]).in_ch == head_inputs(p, i)
                &&& self.convs@[i].out_ch == head_outputs(p, i)
                &&& self.convs@[i].weight@.len() == p.kernels[i]
                &&& self.convs@[i].biased
                &&& self.convs@[i].groups == 1
            }
        &&& forall|i: int|
            0 <= i < self.convs@.len() ==> (#[trigger] self.activations@[i]).model() == p.act
    }

    /// Take the weights of all convolutions from a list.
    pub(crate) fn set_weights(&mut self, w: &mut Weights<S>, Ghost(p): Ghost<HeadPlan<S>>) -> (r: Result<
        (),
        String,
    >)
        requires
            lawful::<S>(),
            old(self).planned(p),
            old(w).wf(),
        ensures
            final(self).planned(p),
            final(w).wf(),
            final(w).data == old(w).data,
            r is Ok <==> old(w).pos + head_count(p) <= old(w).data@.len(),
            r is Ok ==> {
                &&& final(w).pos == old(w).pos + head_count(p)
                &&& final(self).model() == head_from(p, old(w).data@, old(w).pos as int)
            },
            r matches Err(e) ==> e@ == underflow_text(old(w).data@.len()),
    {
        let ghost pos = w.pos as int;
        let ghost data = w.data@;
        let mut i: usize = 0;
        while i < self.convs.len()
            invariant
                lawful::<S>(),
                i <= self.convs@.len(),
                self.planned(p),
                w.wf(),
                w.data == old(w).data,
                data == w.data@,
                pos == old(w).pos,
                w.pos == pos + head_start_at(p, i as nat),
                forall|j: int|
                    0 <= j < i ==> (#[trigger] self.convs@[j]).model()
                        == head_from(p, data, pos).stages[j].1,
            decreases self.convs@.len() - i,
        {
            proof {
                lemma_head_start(p, (i + 1) as nat, p.kernels.len());
            }
            let ghost was = self.convs@;
            let loaded = self.convs[i].set_weights(w);
            assert forall|j: int| 0 <= j < was.len() implies #[trigger] given(
                self.convs@,
                self.in_channels,
                j,
            ) == self.convs@[j].in_ch by {
                assert(given(was, self.in_channels, j) == was[j].in_ch);
            }
            if let Err(e) = loaded {
                return Err(e);
            }
            i += 1;
        }
        assert(self.model().stages =~= head_from(p, data, pos).stages);
        Ok(())
    }
}

} // verus!
