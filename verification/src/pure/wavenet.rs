//! Running the network.

use crate::num::{lawful, Scalar};
use crate::pure::layer::copy_frames;
use crate::pure::layer_array::{
    agree, array_defined, array_fits, array_reads, array_rest, array_run, lemma_array_defined_block,
    lemma_array_reads_block, ArrayModel, ArrayRun, ArrayState, LayerArray,
};
use crate::pure::mat::Mat;
use crate::pure::net::{
    condition_rows, head_given, net_defined, net_fits, net_rest, net_run, net_wired, scaled,
    stack_models, stack_rows, stack_states, stacks_defined, stacks_input, stacks_run, stacks_sized,
    stacks_wf, NetModel, WaveNet,
};
use crate::pure::nn::{overlay, top_rows};
use vstd::prelude::*;

verus! {

/// Run stack `i`, which reads the stack before, the first stack `input`.
fn run_stack<S: Scalar>(
    arrays: &mut Vec<LayerArray<S>>,
    input: &Mat<S>,
    condition: &Mat<S>,
    i: usize,
    num_frames: usize,
    Ghost(max): Ghost<nat>,
)
    requires
        lawful::<S>(),
        i < old(arrays)@.len(),
        old(arrays)@[i as int].wf(),
        old(arrays)@[i as int].sized(max),
        i == 0 ==> {
            &&& input.wf()
            &&& num_frames <= input.cols
            &&& array_reads(
                old(arrays)@[i as int].model(),
                input.rows as nat,
                condition.rows as nat,
            )
        },
        i > 0 ==> {
            let before = old(arrays)@[i - 1];
            &&& before.wf()
            &&& before.sized(max)
            &&& before.layers@.len() > 0
            &&& before.head_rechannel.out_ch == old(arrays)@[i as int].head_output_size
            &&& array_reads(
                old(arrays)@[i as int].model(),
                before.rechannel.out_ch as nat,
                condition.rows as nat,
            )
        },
        condition.wf(),
        num_frames <= condition.cols,
        num_frames <= max,
        array_defined(
            old(arrays)@[i as int].model(),
            old(arrays)@[i as int].state(),
            if i == 0 {
                input@
            } else {
                old(arrays)@[i - 1].layers@.last().out_next@
            },
            condition@,
            num_frames as nat,
        ),
    ensures
        final(arrays)@.len() == old(arrays)@.len(),
        forall|j: int|
            0 <= j < old(arrays)@.len() && j != i ==> #[trigger] final(arrays)@[j] == old(
                arrays,
            )@[j],
        final(arrays)@[i as int].wf(),
        final(arrays)@[i as int].sized(max),
        final(arrays)@[i as int].model() == old(arrays)@[i as int].model(),
        ({
            let now = final(arrays)@[i as int];
            let run = array_run(
                old(arrays)@[i as int].model(),
                old(arrays)@[i as int].state(),
                if i == 0 {
                    input@
                } else {
                    old(arrays)@[i - 1].layers@.last().out_next@
                },
                condition@,
                if i == 0 {
                    None
                } else {
                    Some(old(arrays)@[i - 1].head_rechannel.out@)
                },
                num_frames as nat,
            );
            &&& now.state() == run.state
            &&& now.head_rechannel.out.left(num_frames as int) == run.head
            &&& now.layers@.len() > 0 ==> now.layers@.last().out_next.left(num_frames as int)
                == run.next
        }),
{
    if i == 0 {
        arrays[i].process(input, condition, None, num_frames);
    } else {
        let (before, rest) = arrays.as_mut_slice().split_at_mut(i);
        let prev = &before[i - 1];
        rest[0].process(prev.layer_outputs(), condition, Some(prev.head_outputs()), num_frames);
    }
}

/// What a stack shows to the next one is what `run` says.
spec fn shows<S: Scalar>(array: LayerArray<S>, run: ArrayRun<S>, n: int) -> bool {
    &&& array.head_rechannel.out.left(n) == run.head
    &&& array.layers@.len() > 0 ==> array.layers@.last().out_next.left(n) == run.next
}

/// Run all stacks.
fn run_stacks<S: Scalar>(
    arrays: &mut Vec<LayerArray<S>>,
    input: &Mat<S>,
    condition: &Mat<S>,
    num_frames: usize,
    Ghost(m): Ghost<NetModel<S>>,
    Ghost(max): Ghost<nat>,
)
    requires
        lawful::<S>(),
        old(arrays)@.len() > 0,
        stacks_wf(old(arrays)@),
        stacks_sized(old(arrays)@, max),
        m.arrays == stack_models(old(arrays)@),
        m.inputs == input.rows,
        condition_rows(m) == condition.rows,
        net_wired(m),
        input.wf(),
        condition.wf(),
        num_frames <= input.cols,
        num_frames <= condition.cols,
        num_frames <= max,
        stacks_defined(
            m.arrays,
            stack_states(old(arrays)@),
            input.left(num_frames as int),
            condition.left(num_frames as int),
            num_frames as nat,
        ),
    ensures
        final(arrays)@.len() == old(arrays)@.len(),
        stacks_wf(final(arrays)@),
        stacks_sized(final(arrays)@, max),
        stack_models(final(arrays)@) == m.arrays,
        final(arrays)@.last().head_rechannel.out_ch == old(
            arrays,
        )@.last().head_rechannel.out_ch,
        ({
            let st = stack_states(old(arrays)@);
            let x = input.left(num_frames as int);
            let c = condition.left(num_frames as int);
            let n = num_frames as nat;
            &&& stack_states(final(arrays)@) == Seq::new(
                m.arrays.len(),
                |i: int| stacks_run(m.arrays, st, x, c, n, i as nat).state,
            )
            &&& final(arrays)@.last().head_rechannel.out.left(num_frames as int) == stacks_run(
                m.arrays,
                st,
                x,
                c,
                n,
                (m.arrays.len() - 1) as nat,
            ).head
        }),
{
    let ghost st = stack_states(arrays@);
    let ghost n = num_frames as nat;
    let ghost x = input.left(n as int);
    let ghost c = condition.left(n as int);
    let ghost first = arrays@;
    let mut i: usize = 0;
    while i < arrays.len()
        invariant
            lawful::<S>(),
            i <= arrays@.len(),
            arrays@.len() == first.len(),
            st.len() == first.len(),
            st == stack_states(first),
            stacks_wf(arrays@),
            stacks_sized(arrays@, max),
            stack_models(arrays@) == m.arrays,
            m.inputs == input.rows,
            condition_rows(m) == condition.rows,
            net_wired(m),
            input.wf(),
            condition.wf(),
            n == num_frames,
            num_frames <= input.cols,
            num_frames <= condition.cols,
            num_frames <= max,
            x == input.left(n as int),
            c == condition.left(n as int),
            stacks_defined(m.arrays, st, x, c, n),
            forall|j: int| i <= j < first.len() ==> #[trigger] arrays@[j] == first[j],
            forall|j: int|
                0 <= j < i ==> (#[trigger] arrays@[j]).state() == stacks_run(
                    m.arrays,
                    st,
                    x,
                    c,
                    n,
                    j as nat,
                ).state,
            i > 0 ==> shows(
                arrays@[i - 1],
                stacks_run(m.arrays, st, x, c, n, (i - 1) as nat),
                n as int,
            ),
        decreases arrays@.len() - i,
    {
        let ghost was = arrays@;
        let ghost k = i as int;
        proof {
            assert(stack_models(was)[k] == was[k].model());
            assert(was[k].wf());
            assert(was[k].sized(max));
            assert(was[k] == first[k]);
            assert(st[k] == first[k].state());
            assert(array_reads(m.arrays[k], stack_rows(m, k), condition_rows(m)));
            if k > 0 {
                assert(head_given(was, k) == was[k].head_output_size);
                assert(stack_models(was)[k - 1] == was[k - 1].model());
                assert(was[k - 1].wf());
                assert(was[k - 1].sized(max));
                assert(m.arrays[k - 1].layers.len() > 0);
            }
            let read = if k == 0 {
                input@
            } else {
                was[k - 1].layers@.last().out_next@
            };
            lemma_stack_defined(m.arrays, st, x, c, n, i as nat, read, condition@);
        }
        run_stack(arrays, input, condition, i, num_frames, Ghost(max));
        proof {
            let run = stacks_run(m.arrays, st, x, c, n, i as nat);
            if k == 0 {
                lemma_array_reads_block(
                    m.arrays[k],
                    st[k],
                    input@,
                    x,
                    condition@,
                    c,
                    None,
                    None,
                    n,
                );
            } else {
                let before = stacks_run(m.arrays, st, x, c, n, (i - 1) as nat);
                let next = was[k - 1].layers@.last().out_next;
                let head = was[k - 1].head_rechannel.out;
                assert(agree(next@, before.next, n)) by {
                    assert forall|f: int| 0 <= f < n implies #[trigger] next@[f]
                        == #[trigger] before.next[f] by {
                        assert(next.left(n as int)[f] == next@[f]);
                    }
                }
                assert(agree(head@, before.head, n)) by {
                    assert forall|f: int| 0 <= f < n implies #[trigger] head@[f]
                        == #[trigger] before.head[f] by {
                        assert(head.left(n as int)[f] == head@[f]);
                    }
                }
                lemma_array_reads_block(
                    m.arrays[k],
                    st[k],
                    next@,
                    before.next,
                    condition@,
                    c,
                    Some(head@),
                    Some(before.head),
                    n,
                );
            }
            assert(shows(arrays@[k], run, n as int));
            assert(arrays@[k].state() == run.state);
            lemma_stacks_kept(was, arrays@, k, max);
            assert(stack_models(arrays@) =~= m.arrays);
        }
        i += 1;
    }
    assert(stack_states(arrays@) =~= Seq::new(
        m.arrays.len(),
        |i: int| stacks_run(m.arrays, st, x, c, n, i as nat).state,
    ));
    proof {
        let l = arrays@.len() - 1;
        assert(arrays@[l].model().head.outputs == first[l].model().head.outputs) by {
            assert(stack_models(arrays@)[l] == stack_models(first)[l]);
        }
    }
}

/// A stack that reads what the stacks before it have made brings its activations
/// what the network says.
proof fn lemma_stack_defined<S: Scalar>(
    arrays: Seq<ArrayModel<S>>,
    states: Seq<ArrayState<S>>,
    x: Seq<Seq<S>>,
    c: Seq<Seq<S>>,
    n: nat,
    i: nat,
    read: Seq<Seq<S>>,
    d: Seq<Seq<S>>,
)
    requires
        i < arrays.len(),
        stacks_defined(arrays, states, x, c, n),
        read.take(n as int) == stacks_input(arrays, states, x, c, n, i),
        d.take(n as int) == c,
        n <= read.len(),
        n <= d.len(),
    ensures
        array_defined(arrays[i as int], states[i as int], read, d, n),
{
    reveal(stacks_defined);
    let given = stacks_input(arrays, states, x, c, n, i);
    assert(agree(given, read, n)) by {
        assert forall|f: int| 0 <= f < n implies #[trigger] given[f] == #[trigger] read[f] by {
            assert(read.take(n as int)[f] == read[f]);
        }
    }
    assert(agree(c, d, n)) by {
        assert forall|f: int| 0 <= f < n implies #[trigger] c[f] == #[trigger] d[f] by {
            assert(d.take(n as int)[f] == d[f]);
        }
    }
    lemma_array_defined_block(arrays[i as int], states[i as int], given, read, c, d, n);
}

/// Running one stack leaves the stacks fitting each other.
proof fn lemma_stacks_kept<S: Scalar>(
    was: Seq<LayerArray<S>>,
    now: Seq<LayerArray<S>>,
    k: int,
    max: nat,
)
    requires
        stacks_wf(was),
        stacks_sized(was, max),
        was.len() == now.len(),
        0 <= k < was.len(),
        forall|j: int| 0 <= j < was.len() && j != k ==> #[trigger] now[j] == was[j],
        now[k].wf(),
        now[k].sized(max),
        now[k].model() == was[k].model(),
    ensures
        stacks_wf(now),
        stacks_sized(now, max),
        stack_models(now) == stack_models(was),
{
    lemma_stacks_fit(was, now, k);
    assert forall|j: int| 0 <= j < now.len() implies (#[trigger] now[j]).sized(max) by {
        assert(was[j].sized(max));
    }
}

/// Write the top channels of the first `num_frames` frames, multiplied.
fn scale_frames<S: Scalar>(scale: S, src: &Mat<S>, dst: &mut Mat<S>, num_frames: usize)
    requires
        lawful::<S>(),
        src.wf(),
        old(dst).wf(),
        old(dst).rows == src.rows,
        num_frames <= src.cols,
        num_frames <= old(dst).cols,
    ensures
        final(dst).shaped(old(dst).rows as nat, old(dst).cols as nat),
        final(dst)@ == overlay(old(dst)@, scaled(scale, src.left(num_frames as int))),
{
    let ghost first = dst@;
    let ghost rows = dst.rows as nat;
    let ghost want = scaled(scale, src.left(num_frames as int));
    let mut f: usize = 0;
    assert(dst@ =~= overlay(first, want.take(0)));
    while f < num_frames
        invariant
            lawful::<S>(),
            src.wf(),
            dst.shaped(rows, old(dst).cols as nat),
            rows == src.rows,
            f <= num_frames <= src.cols,
            num_frames <= dst.cols,
            rows == old(dst).rows,
            first == old(dst)@,
            want == scaled(scale, src.left(num_frames as int)),
            dst@ == overlay(first, want.take(f as int)),
        decreases num_frames - f,
    {
        let ghost before = dst@;
        let mut r: usize = 0;
        while r < dst.rows
            invariant
                lawful::<S>(),
                src.wf(),
                dst.shaped(rows, old(dst).cols as nat),
                r <= rows,
                rows == src.rows,
                f < src.cols,
                f < dst.cols,
                before.len() == dst.cols,
                forall|k: int|
                    0 <= k < before.len() && k != f ==> #[trigger] dst@[k] == before[k],
                forall|q: int|
                    0 <= q < r ==> #[trigger] dst@[f as int][q] == scale.mul_spec(
                        src@[f as int][q],
                    ),
            decreases rows - r,
        {
            let v = scale.mul(src.get(r, f));
            dst.set(r, f, v);
            r += 1;
        }
        f += 1;
        proof {
            assert(src.left(num_frames as int)[f - 1] == src@[f - 1]);
            assert(dst@[f - 1] =~= want[f - 1]);
            assert(dst@ =~= overlay(first, want.take(f as int)));
        }
    }
    assert(want.take(num_frames as int) =~= want);
}

/// Copy the first `num_frames` frames between matrices with equally many rows.
fn copy_block<S: Scalar>(src: &Mat<S>, dst: &mut Mat<S>, num_frames: usize)
    requires
        src.wf(),
        old(dst).wf(),
        old(dst).rows == src.rows,
        num_frames <= src.cols,
        num_frames <= old(dst).cols,
    ensures
        final(dst).shaped(old(dst).rows as nat, old(dst).cols as nat),
        final(dst)@ == overlay(old(dst)@, src.left(num_frames as int)),
        final(dst).left(num_frames as int) == src.left(num_frames as int),
{
    copy_frames(src, dst, num_frames);
    proof {
        let want = src.left(num_frames as int);
        let top = top_rows(src@, num_frames as nat, src.rows as nat);
        assert forall|f: int| 0 <= f < num_frames implies #[trigger] top[f] == want[f] by {
            assert(src@[f].take(src.rows as int) =~= src@[f]);
        }
        assert(top =~= want);
        assert(dst.left(num_frames as int) =~= want);
    }
}

impl<S: Scalar> WaveNet<S> {
    /// How many frames of silence bring the network to rest.
    pub fn prewarm_samples(&self) -> (r: usize)
        ensures
            r == self.prewarm_samples,
    {
        self.prewarm_samples
    }

    /// Channels read.
    pub fn in_channels(&self) -> (r: usize)
        ensures
            r == self.in_channels,
    {
        self.in_channels
    }

    /// Channels written.
    pub fn out_channels(&self) -> (r: usize)
        ensures
            r == self.out_channels,
    {
        self.out_channels
    }

    /// Run the network on the first `num_frames` frames of its input buffer.
    #[verifier::rlimit(60)]
    pub fn process_frames(&mut self, num_frames: usize)
        requires
            lawful::<S>(),
            old(self).wf(),
            old(self).sized(old(self).max_frames as nat),
            net_wired(old(self).model()),
            net_defined(
                old(self).model(),
                old(self).state(),
                old(self).condition_input.left(num_frames as int),
            ),
            num_frames <= old(self).max_frames,
        ensures
            final(self).wf(),
            final(self).sized(old(self).max_frames as nat),
            final(self).model() == old(self).model(),
            final(self).condition_input == old(self).condition_input,
            final(self).prewarm_samples == old(self).prewarm_samples,
            ({
                let run = net_run(
                    old(self).model(),
                    old(self).state(),
                    old(self).condition_input.left(num_frames as int),
                );
                &&& final(self).state() == run.state
                &&& final(self).output.left(num_frames as int) == run.output
                &&& final(self).output.right(num_frames as int) == old(self).output.right(
                    num_frames as int,
                )
            }),
        decreases old(self).model(),
    {
        let ghost m = self.model();
        let ghost st = self.state();
        let ghost n = num_frames as int;
        let ghost x = self.condition_input.left(n);
        let ghost max = self.max_frames as nat;
        proof {
            reveal_with_fuel(WaveNet::wf, 2);
            reveal_with_fuel(WaveNet::sized, 2);
            reveal_with_fuel(WaveNet::model, 2);
            reveal_with_fuel(WaveNet::state, 2);
        }
        match &mut self.condition_dsp {
            Some(cd) => {
                copy_block(&self.condition_input, &mut cd.condition_input, num_frames);
                cd.process_frames(num_frames);
            },
            None => {},
        }
        let condition = match &self.condition_dsp {
            Some(cd) => &cd.output,
            None => &self.condition_input,
        };
        let ghost c = condition.left(n);
        run_stacks(
            &mut self.layer_arrays,
            &self.condition_input,
            condition,
            num_frames,
            Ghost(m),
            Ghost(max),
        );
        let last = self.layer_arrays.len() - 1;
        let ghost run = net_run(m, st, x);
        let ghost head = stacks_run(m.arrays, st.arrays, x, c, n as nat, last as nat).head;
        assert(stack_states(self.layer_arrays@) == run.state.arrays);
        match &mut self.post_head {
            Some(post) => {
                scale_frames(
                    self.head_scale,
                    self.layer_arrays[last].head_outputs(),
                    &mut post.scratch,
                    num_frames,
                );
                assert(post.scratch.left(n) =~= scaled(m.scale, head));
                post.process(num_frames);
                copy_block(&post.convs[post.convs.len() - 1].out, &mut self.output, num_frames);
            },
            None => {
                scale_frames(
                    self.head_scale,
                    self.layer_arrays[last].head_outputs(),
                    &mut self.output,
                    num_frames,
                );
                assert(self.output.left(n) =~= scaled(m.scale, head));
            },
        }
        assert(self.output.right(n) =~= old(self).output.right(n));
    }

    /// The input has been silent but for its first channel.
    pub open spec fn quiet(&self) -> bool {
        silent_below(self.condition_input)
    }

    /// Forget the history and make room for blocks of up to `max_frames`
    /// frames.
    pub fn set_max_buffer_size(&mut self, max_frames: usize)
        requires
            lawful::<S>(),
            old(self).wf(),
            net_fits(old(self).model(), max_frames as nat),
        ensures
            final(self).wf(),
            final(self).model() == old(self).model(),
            final(self).sized(max_frames as nat),
            final(self).quiet(),
            final(self).prewarm_samples == old(self).prewarm_samples,
            final(self).state() == net_rest(old(self).model()),
        decreases old(self).model(),
    {
        let ghost m = self.model();
        proof {
            reveal_with_fuel(WaveNet::model, 2);
        }
        self.max_frames = max_frames;
        self.condition_input.reset(self.in_channels, max_frames);
        self.output.reset(self.out_channels, max_frames);
        match &mut self.condition_dsp {
            Some(cd) => cd.set_max_buffer_size(max_frames),
            None => {},
        }
        size_stacks(&mut self.layer_arrays, max_frames, Ghost(m));
        match &mut self.post_head {
            Some(h) => {
                let ghost stages = h.model().stages;
                assert(stages.last().1.outputs == h.convs@.last().out_ch);
                h.set_max_buffer_size(max_frames);
                assert(stages.last().1.outputs == h.convs@.last().out_ch);
            },
            None => {},
        }
        assert(self.state().arrays =~= net_rest(m).arrays);
    }

    /// Run the network on a block of samples: the first channel in, the first
    /// channel out.
    pub fn process_block(&mut self, input: &[S::Wide], output: &mut [S::Wide])
        requires
            lawful::<S>(),
            old(self).wf(),
            old(self).sized(old(self).max_frames as nat),
            old(self).quiet(),
            net_wired(old(self).model()),
            net_defined(
                old(self).model(),
                old(self).state(),
                mono_block::<S>(old(self).model().inputs, input@),
            ),
            old(self).in_channels >= 1,
            old(self).out_channels >= 1,
            input@.len() <= old(self).max_frames,
        ensures
            final(self).wf(),
            final(self).sized(old(self).max_frames as nat),
            final(self).quiet(),
            final(self).model() == old(self).model(),
            final(self).prewarm_samples == old(self).prewarm_samples,
            ({
                let m = old(self).model();
                let run = net_run(m, old(self).state(), mono_block::<S>(m.inputs, input@));
                &&& final(self).state() == run.state
                &&& final(output)@ == overlay(old(output)@, first_channel(run.output))
            }),
    {
        let num_frames = input.len();
        write_samples(&mut self.condition_input, input);
        self.process_frames(num_frames);
        read_samples(&self.output, output, num_frames);
    }
}

/// All channels of a matrix but the first are silent.
pub open spec fn silent_below<S: Scalar>(m: Mat<S>) -> bool {
    forall|f: int, r: int|
        0 <= f < m.cols && 1 <= r < m.rows ==> #[trigger] m@[f][r] == S::zero_spec()
}

/// Write samples to the first channel.
fn write_samples<S: Scalar>(m: &mut Mat<S>, input: &[S::Wide])
    requires
        lawful::<S>(),
        old(m).wf(),
        old(m).rows >= 1,
        input@.len() <= old(m).cols,
        silent_below(*old(m)),
    ensures
        final(m).shaped(old(m).rows as nat, old(m).cols as nat),
        silent_below(*final(m)),
        final(m).left(input@.len() as int) == mono_block::<S>(old(m).rows as nat, input@),
{
    let ghost rows = m.rows as nat;
    let mut f: usize = 0;
    while f < input.len()
        invariant
            lawful::<S>(),
            m.shaped(rows, old(m).cols as nat),
            rows == old(m).rows,
            rows >= 1,
            f <= input@.len() <= m.cols,
            silent_below(*m),
            forall|g: int|
                0 <= g < f ==> #[trigger] m@[g][0] == S::narrow_spec(input@[g]),
        decreases input@.len() - f,
    {
        m.set(0, f, S::narrow(input[f]));
        f += 1;
    }
    proof {
        let got = m.left(f as int);
        let want = mono_block::<S>(rows, input@);
        assert forall|g: int| 0 <= g < f implies #[trigger] got[g] == want[g] by {
            assert forall|r: int| 0 <= r < rows implies #[trigger] got[g][r] == want[g][r] by {
                assert(m@[g][0] == S::narrow_spec(input@[g]));
                if r > 0 {
                    assert(m@[g][r] == S::zero_spec());
                }
            }
            assert(got[g] =~= want[g]);
        }
        assert(got =~= want);
    }
}

/// Read the samples of the first `num_frames` frames from the first channel.
fn read_samples<S: Scalar>(m: &Mat<S>, output: &mut [S::Wide], num_frames: usize)
    requires
        lawful::<S>(),
        m.wf(),
        m.rows >= 1,
        num_frames <= m.cols,
    ensures
        final(output)@ == overlay(old(output)@, first_channel(m.left(num_frames as int))),
{
    let ghost first = output@;
    let ghost heard = first_channel(m.left(num_frames as int));
    let mut g: usize = 0;
    while g < num_frames && g < output.len()
        invariant
            lawful::<S>(),
            m.wf(),
            m.rows >= 1,
            num_frames <= m.cols,
            g <= num_frames,
            g <= output@.len(),
            output@.len() == first.len(),
            heard == first_channel(m.left(num_frames as int)),
            forall|k: int|
                0 <= k < first.len() ==> #[trigger] output@[k] == if k < g {
                    heard[k]
                } else {
                    first[k]
                },
        decreases num_frames - g,
    {
        output[g] = m.get(0, g).widen();
        g += 1;
    }
    assert(output@ =~= overlay(first, heard));
}

/// The frame of a sample: the sample in the first channel, silence in the
/// others.
pub open spec fn mono<S: Scalar>(inputs: nat, x: S::Wide) -> Seq<S> {
    Seq::new(
        inputs,
        |r: int|
            if r == 0 {
                S::narrow_spec(x)
            } else {
                S::zero_spec()
            },
    )
}

/// The frames of a block of samples.
pub open spec fn mono_block<S: Scalar>(inputs: nat, x: Seq<S::Wide>) -> Seq<Seq<S>> {
    Seq::new(x.len(), |f: int| mono::<S>(inputs, x[f]))
}

/// The samples in the first channel of a block.
pub open spec fn first_channel<S: Scalar>(y: Seq<Seq<S>>) -> Seq<S::Wide> {
    Seq::new(y.len(), |f: int| y[f][0].widen_spec())
}

/// Make room in all stacks.
fn size_stacks<S: Scalar>(
    arrays: &mut Vec<LayerArray<S>>,
    max_frames: usize,
    Ghost(m): Ghost<NetModel<S>>,
)
    requires
        lawful::<S>(),
        stacks_wf(old(arrays)@),
        m.arrays == stack_models(old(arrays)@),
        forall|i: int|
            0 <= i < m.arrays.len() ==> array_fits(#[trigger] m.arrays[i], max_frames as nat),
    ensures
        final(arrays)@.len() == old(arrays)@.len(),
        stacks_wf(final(arrays)@),
        stacks_sized(final(arrays)@, max_frames as nat),
        stack_models(final(arrays)@) == m.arrays,
        stack_states(final(arrays)@) == Seq::new(
            m.arrays.len(),
            |i: int| array_rest(m.arrays[i]),
        ),
        old(arrays)@.len() > 0 ==> final(arrays)@.last().head_rechannel.out_ch == old(
            arrays,
        )@.last().head_rechannel.out_ch,
{
    let ghost first = arrays@;
    let mut i: usize = 0;
    while i < arrays.len()
        invariant
            lawful::<S>(),
            i <= arrays@.len(),
            arrays@.len() == first.len(),
            stacks_wf(arrays@),
            stack_models(arrays@) == m.arrays,
            forall|j: int|
                0 <= j < m.arrays.len() ==> array_fits(
                    #[trigger] m.arrays[j],
                    max_frames as nat,
                ),
            forall|j: int|
                0 <= j < i ==> {
                    &&& (#[trigger] arrays@[j]).sized(max_frames as nat)
                    &&& arrays@[j].state() == array_rest(m.arrays[j])
                },
        decreases arrays@.len() - i,
    {
        let ghost was = arrays@;
        assert(stack_models(was)[i as int] == was[i as int].model());
        assert(was[i as int].wf());
        arrays[i].set_max_buffer_size(max_frames);
        proof {
            lemma_stacks_fit(was, arrays@, i as int);
        }
        i += 1;
    }
    assert(stack_states(arrays@) =~= Seq::new(m.arrays.len(), |i: int| array_rest(m.arrays[i])));
    proof {
        if first.len() > 0 {
            let l = first.len() - 1;
            assert(arrays@[l].model().head.outputs == first[l].model().head.outputs) by {
                assert(stack_models(arrays@)[l] == stack_models(first)[l]);
            }
        }
    }
}

/// A stack that keeps its map still fits the others.
proof fn lemma_stacks_fit<S: Scalar>(
    was: Seq<LayerArray<S>>,
    now: Seq<LayerArray<S>>,
    k: int,
)
    requires
        stacks_wf(was),
        was.len() == now.len(),
        0 <= k < was.len(),
        forall|j: int| 0 <= j < was.len() && j != k ==> #[trigger] now[j] == was[j],
        now[k].wf(),
        now[k].model() == was[k].model(),
    ensures
        stacks_wf(now),
        stack_models(now) == stack_models(was),
{
    assert forall|j: int| 0 <= j < now.len() implies (#[trigger] now[j]).wf() by {
        assert(was[j].wf());
    }
    assert(now[k].head_output_size == was[k].head_output_size) by {
        assert(now[k].model().head.inputs == was[k].model().head.inputs);
        assert(was[k].wf());
    }
    assert(now[k].head_rechannel.out_ch == was[k].head_rechannel.out_ch) by {
        assert(now[k].model().head.outputs == was[k].model().head.outputs);
    }
    assert forall|j: int| 0 < j < now.len() implies #[trigger] head_given(now, j)
        == now[j].head_output_size by {
        assert(head_given(was, j) == was[j].head_output_size);
    }
    assert forall|j: int| 0 <= j < now.len() implies #[trigger] stack_models(now)[j]
        == stack_models(was)[j] by {
        assert(j != k ==> now[j] == was[j]);
    }
    assert(stack_models(now) =~= stack_models(was));
}

} // verus!
