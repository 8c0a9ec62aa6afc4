//! A stack of layers that share their number of channels, with the head that
//! sums their skip outputs.

use crate::num::{lawful, Scalar};
use crate::pure::conv1d::{dilated_block, lookback, rolled, Conv1D, Dilated};
use crate::pure::layer::{
    conv_inputs, copy_frames, frame_defined, layer_defined, layer_run, layer_total, same_later,
    summed, Layer, LayerModel, LayerRun,
};
use crate::pure::layer_setup::{affine_fits, dilated_fits, layer_fits};
use crate::pure::mat::{silence, Mat};
use crate::pure::nn::{affine_block, overlay, top_rows, Affine, Conv1x1};
use vstd::prelude::*;

verus! {

// The stack as a mathematical map ============================================

/// A stack of layers as a mathematical map.
pub struct ArrayModel<S> {
    /// Brings the input to the channels of the layers.
    pub rechannel: Affine<S>,
    /// The layers, in order.
    pub layers: Seq<LayerModel<S>>,
    /// The convolution of the summed skip outputs.
    pub head: Dilated<S>,
}

/// The frames that a stack remembers.
#[verifier::ext_equal]
pub struct ArrayState<S> {
    /// The history of each layer.
    pub layers: Seq<Seq<Seq<S>>>,
    /// The history of the head.
    pub head: Seq<Seq<S>>,
}

/// What a block leaves behind in a stack.
pub struct ArrayRun<S> {
    /// The histories for the next block.
    pub state: ArrayState<S>,
    /// The output of the last layer.
    pub next: Seq<Seq<S>>,
    /// The output of the head.
    pub head: Seq<Seq<S>>,
}

/// The sum of two blocks, over the channels of the first.
pub open spec fn added<S: Scalar>(a: Seq<Seq<S>>, b: Seq<Seq<S>>) -> Seq<Seq<S>> {
    Seq::new(
        a.len(),
        |f: int| Seq::new(a[f].len(), |r: int| a[f][r].add_spec(b[f][r])),
    )
}

/// The input of layer `i`, for a first layer that reads `x`.
pub open spec fn stack_input<S: Scalar>(
    layers: Seq<LayerModel<S>>,
    histories: Seq<Seq<Seq<S>>>,
    x: Seq<Seq<S>>,
    c: Seq<Seq<S>>,
    n: nat,
    i: nat,
) -> Seq<Seq<S>>
    decreases i,
{
    if i == 0 {
        x
    } else {
        layer_run(
            layers[i - 1],
            histories[i - 1],
            stack_input(layers, histories, x, c, n, (i - 1) as nat),
            c,
            n,
        ).next
    }
}

/// What layer `i` makes of the block.
pub open spec fn stack_run<S: Scalar>(
    layers: Seq<LayerModel<S>>,
    histories: Seq<Seq<Seq<S>>>,
    x: Seq<Seq<S>>,
    c: Seq<Seq<S>>,
    n: nat,
    i: int,
) -> LayerRun<S> {
    layer_run(
        layers[i],
        histories[i],
        stack_input(layers, histories, x, c, n, i as nat),
        c,
        n,
    )
}

/// The skip outputs of the first `i` layers, added to `start`.
pub open spec fn stack_head<S: Scalar>(
    layers: Seq<LayerModel<S>>,
    histories: Seq<Seq<Seq<S>>>,
    x: Seq<Seq<S>>,
    c: Seq<Seq<S>>,
    n: nat,
    start: Seq<Seq<S>>,
    i: nat,
) -> Seq<Seq<S>>
    decreases i,
{
    if i == 0 {
        start
    } else {
        added(
            stack_head(layers, histories, x, c, n, start, (i - 1) as nat),
            stack_run(layers, histories, x, c, n, i - 1).skip,
        )
    }
}

/// What the skip outputs are added to: silence, or the output of the head of
/// the stack before.
pub open spec fn head_start<S: Scalar>(
    rows: nat,
    head_in: Option<Seq<Seq<S>>>,
    n: nat,
) -> Seq<Seq<S>> {
    match head_in {
        Some(h) => top_rows(h, n, rows),
        None => silence::<S>(rows, n),
    }
}

/// What a stack makes of the first `n` frames of its input and condition.
pub open spec fn array_run<S: Scalar>(
    m: ArrayModel<S>,
    st: ArrayState<S>,
    x: Seq<Seq<S>>,
    c: Seq<Seq<S>>,
    head_in: Option<Seq<Seq<S>>>,
    n: nat,
) -> ArrayRun<S> {
    let first = affine_block(m.rechannel, x, n);
    let sum = stack_head(
        m.layers,
        st.layers,
        first,
        c,
        n,
        head_start(m.head.inputs, head_in, n),
        m.layers.len(),
    );
    ArrayRun {
        state: ArrayState {
            layers: Seq::new(
                m.layers.len(),
                |i: int| stack_run(m.layers, st.layers, first, c, n, i).history,
            ),
            head: rolled(st.head, sum),
        },
        next: stack_input(m.layers, st.layers, first, c, n, m.layers.len()),
        head: dilated_block(m.head, st.head, sum),
    }
}

/// The histories of a stack that has heard nothing.
pub open spec fn array_rest<S: Scalar>(m: ArrayModel<S>) -> ArrayState<S> {
    ArrayState {
        layers: Seq::new(
            m.layers.len(),
            |i: int|
                silence::<S>(m.layers[i].channels, lookback(m.layers[i].conv) as nat),
        ),
        head: silence::<S>(m.head.inputs, lookback(m.head) as nat),
    }
}

/// How many frames the layers look back.
pub open spec fn layers_reach<S>(layers: Seq<LayerModel<S>>) -> int
    decreases layers.len(),
{
    if layers.len() == 0 {
        0
    } else {
        layers_reach(layers.drop_last()) + lookback(layers.last().conv)
    }
}

/// How many frames a stack looks back.
pub open spec fn array_reach<S>(m: ArrayModel<S>) -> int {
    layers_reach(m.layers) + lookback(m.head)
}

/// The buffers of a stack can be addressed.
pub open spec fn array_fits<S>(m: ArrayModel<S>, max: nat) -> bool {
    &&& affine_fits(m.rechannel, max)
    &&& forall|i: int| 0 <= i < m.layers.len() ==> layer_fits(#[trigger] m.layers[i], max)
    &&& dilated_fits(m.head, max)
    &&& max * m.head.inputs <= usize::MAX
}

/// The stack can read an input and a condition with this many channels.
pub open spec fn array_reads<S>(m: ArrayModel<S>, rows: nat, condition: nat) -> bool {
    &&& m.rechannel.inputs <= rows
    &&& forall|i: int|
        0 <= i < m.layers.len() ==> (#[trigger] m.layers[i]).mixin.inputs <= condition
}

/// The activations of the stack have values everywhere.
pub open spec fn array_total<S>(m: ArrayModel<S>) -> bool {
    forall|i: int| 0 <= i < m.layers.len() ==> layer_total(#[trigger] m.layers[i])
}

/// The activations of the stack have values at everything that the first `n`
/// frames bring them.
pub open spec fn array_defined<S: Scalar>(
    m: ArrayModel<S>,
    st: ArrayState<S>,
    x: Seq<Seq<S>>,
    c: Seq<Seq<S>>,
    n: nat,
) -> bool {
    let first = affine_block(m.rechannel, x, n);
    forall|i: int|
        0 <= i < m.layers.len() ==> layer_defined(
            #[trigger] m.layers[i],
            st.layers[i],
            stack_input(m.layers, st.layers, first, c, n, i as nat),
            c,
            n,
        )
}

// The stack with its buffers =================================================

/// A stack of layers with its buffers.
pub struct LayerArray<S> {
    /// Brings the input to the channels of the layers.
    pub rechannel: Conv1x1<S>,
    /// The layers, in order.
    pub layers: Vec<Layer<S>>,
    /// The summed skip outputs.
    pub head_inputs: Mat<S>,
    /// The convolution of the summed skip outputs.
    pub head_rechannel: Conv1D<S>,
    /// Channels of the summed skip outputs.
    pub head_output_size: usize,
}

/// The maps of the layers.
pub open spec fn layer_models<S: Scalar>(layers: Seq<Layer<S>>) -> Seq<LayerModel<S>> {
    Seq::new(layers.len(), |i: int| layers[i].model())
}

/// The histories of the layers.
pub open spec fn layer_histories<S: Scalar>(layers: Seq<Layer<S>>) -> Seq<Seq<Seq<S>>> {
    Seq::new(layers.len(), |i: int| layers[i].conv.history())
}

/// The layers fit each other and the head.
pub open spec fn layers_wf<S: Scalar>(
    layers: Seq<Layer<S>>,
    channels: usize,
    head_rows: usize,
) -> bool {
    forall|i: int|
        0 <= i < layers.len() ==> {
            &&& (#[trigger] layers[i]).wf()
            &&& layers[i].channels == channels
            &&& layers[i].skip_rows() >= head_rows
        }
}

/// The buffers of the layers have room for blocks of this many frames.
pub open spec fn layers_sized<S: Scalar>(layers: Seq<Layer<S>>, max: nat) -> bool {
    forall|i: int| 0 <= i < layers.len() ==> (#[trigger] layers[i]).sized(max)
}

/// The buffers of the layers of two stacks hold the same from frame `n` on.
pub open spec fn layers_same_later<S: Scalar>(
    a: Seq<Layer<S>>,
    b: Seq<Layer<S>>,
    n: int,
) -> bool {
    &&& b.len() == a.len()
    &&& forall|j: int| 0 <= j < a.len() ==> same_later(a[j], #[trigger] b[j], n)
}

impl<S: Scalar> LayerArray<S> {
    /// The shapes agree.
    pub open spec fn wf(&self) -> bool {
        &&& self.rechannel.wf()
        &&& self.head_rechannel.wf()
        &&& self.head_rechannel.in_ch == self.head_output_size
        &&& self.head_inputs.wf()
        &&& self.head_inputs.rows == self.head_output_size
        &&& layers_wf(self.layers@, self.rechannel.out_ch, self.head_output_size)
    }

    /// The buffers have room for blocks of this many frames.
    pub open spec fn sized(&self, max: nat) -> bool {
        &&& self.rechannel.sized(max)
        &&& self.head_rechannel.sized(max)
        &&& self.head_inputs.cols == max
        &&& layers_sized(self.layers@, max)
    }

    /// The map that this stack computes.
    pub open spec fn model(&self) -> ArrayModel<S> {
        ArrayModel {
            rechannel: self.rechannel.model(),
            layers: layer_models(self.layers@),
            head: self.head_rechannel.model(),
        }
    }

    /// What this stack remembers.
    pub open spec fn state(&self) -> ArrayState<S> {
        ArrayState {
            layers: layer_histories(self.layers@),
            head: self.head_rechannel.history(),
        }
    }

    /// The output of the last layer.
    pub fn layer_outputs(&self) -> (r: &Mat<S>)
        requires
            self.layers@.len() > 0,
        ensures
            *r == self.layers@.last().out_next,
    {
        &self.layers[self.layers.len() - 1].out_next
    }

    /// The output of the head.
    pub fn head_outputs(&self) -> (r: &Mat<S>)
        ensures
            *r == self.head_rechannel.out,
    {
        &self.head_rechannel.out
    }

    /// Run the stack on the first `num_frames` frames. The sum of the skip
    /// outputs starts from the head of the stack before, where there is one.
    #[verifier::spinoff_prover]
    #[verifier::rlimit(60)]
    pub fn process(
        &mut self,
        input: &Mat<S>,
        condition: &Mat<S>,
        head_in: Option<&Mat<S>>,
        num_frames: usize,
    )
        requires
            lawful::<S>(),
            old(self).wf(),
            old(self).sized(old(self).head_inputs.cols as nat),
            array_reads(old(self).model(), input.rows as nat, condition.rows as nat),
            array_defined(
                old(self).model(),
                old(self).state(),
                input@,
                condition@,
                num_frames as nat,
            ),
            input.wf(),
            condition.wf(),
            head_in matches Some(h) ==> {
                &&& h.wf()
                &&& old(self).head_output_size <= h.rows
                &&& num_frames <= h.cols
            },
            num_frames <= input.cols,
            num_frames <= condition.cols,
            num_frames <= old(self).head_inputs.cols,
        ensures
            final(self).wf(),
            final(self).sized(old(self).head_inputs.cols as nat),
            final(self).model() == old(self).model(),
            ({
                let run = array_run(
                    old(self).model(),
                    old(self).state(),
                    input@,
                    condition@,
                    match head_in {
                        Some(h) => Some(h@),
                        None => None,
                    },
                    num_frames as nat,
                );
                &&& final(self).state() == run.state
                &&& final(self).head_rechannel.out.left(num_frames as int) == run.head
                &&& final(self).layers@.len() > 0 ==> final(self).layers@.last().out_next.left(
                    num_frames as int,
                ) == run.next
            }),
            layers_same_later(old(self).layers@, final(self).layers@, num_frames as int),
            final(self).rechannel.out.right(num_frames as int) == old(self).rechannel.out.right(
                num_frames as int,
            ),
            final(self).head_rechannel.out.right(num_frames as int) == old(
                self,
            ).head_rechannel.out.right(num_frames as int),
            final(self).head_inputs.right(num_frames as int) == match head_in {
                Some(_) => old(self).head_inputs.right(num_frames as int),
                None => silence::<S>(
                    old(self).head_output_size as nat,
                    (old(self).head_inputs.cols - num_frames) as nat,
                ),
            },
    {
        let ghost n = num_frames as nat;
        let ghost max = self.head_inputs.cols as nat;
        let ghost c = condition@;
        let ghost m = self.model();
        let ghost st = self.state();
        let ghost start = head_start(
            m.head.inputs,
            match head_in {
                Some(h) => Some(h@),
                None => None,
            },
            n,
        );
        match head_in {
            None => self.head_inputs.zero(),
            Some(h) => copy_frames(h, &mut self.head_inputs, num_frames),
        }
        assert(self.head_inputs.left(n as int) =~= start);
        let ghost later = match head_in {
            Some(_) => old(self).head_inputs.right(n as int),
            None => silence::<S>(
                old(self).head_output_size as nat,
                (old(self).head_inputs.cols - n) as nat,
            ),
        };
        assert(self.head_inputs.right(n as int) =~= later);
        self.rechannel.process(input, num_frames);
        let ghost first = affine_block(m.rechannel, input@, n);
        assert(self.rechannel.out.left(n as int) =~= first);
        let ghost heard = self.layers@;
        let ghost entry = *self;
        let mut i: usize = 0;
        while i < self.layers.len()
            invariant
                lawful::<S>(),
                i <= self.layers@.len(),
                self.rechannel == entry.rechannel,
                self.head_rechannel == entry.head_rechannel,
                self.head_output_size == entry.head_output_size,
                self.layers@.len() == heard.len(),
                heard.len() == m.layers.len(),
                heard.len() == st.layers.len(),
                self.rechannel.out.wf(),
                self.rechannel.out.rows == self.rechannel.out_ch,
                self.rechannel.out.cols == max,
                self.rechannel.out.left(n as int) == first,
                n == num_frames,
                n <= max,
                condition.wf(),
                c == condition@,
                num_frames <= condition.cols,
                self.head_inputs.shaped(self.head_output_size as nat, max),
                self.head_inputs.right(n as int) == later,
                layers_same_later(heard, self.layers@, n as int),
                layers_wf(self.layers@, self.rechannel.out_ch, self.head_output_size),
                layers_sized(self.layers@, max),
                layer_models(self.layers@) == m.layers,
                forall|j: int|
                    0 <= j < m.layers.len() ==> {
                        &&& (#[trigger] m.layers[j]).mixin.inputs <= condition.rows
                        &&& layer_defined(
                            m.layers[j],
                            st.layers[j],
                            stack_input(m.layers, st.layers, first, c, n, j as nat),
                            c,
                            n,
                        )
                    },
                forall|j: int|
                    0 <= j < heard.len() ==> #[trigger] layer_histories(self.layers@)[j] == if j
                        < i {
                        stack_run(m.layers, st.layers, first, c, n, j).history
                    } else {
                        st.layers[j]
                    },
                i > 0 ==> self.layers@[i - 1].out_next.left(n as int) == stack_input(
                    m.layers,
                    st.layers,
                    first,
                    c,
                    n,
                    i as nat,
                ),
                self.head_inputs.left(n as int) == stack_head(
                    m.layers,
                    st.layers,
                    first,
                    c,
                    n,
                    start,
                    i as nat,
                ),
            decreases self.layers@.len() - i,
        {
            let ghost was = self.layers@;
            let ghost input = if i == 0 {
                self.rechannel.out@
            } else {
                was[i - 1].out_next@
            };
            let ghost sum = self.head_inputs@;
            assert(m.layers[i as int] == was[i as int].model());
            assert(layer_histories(was)[i as int] == st.layers[i as int]);
            proof {
                let x = stack_input(m.layers, st.layers, first, c, n, i as nat);
                assert forall|f: int| 0 <= f < n implies #[trigger] input[f] == x[f] by {
                    assert(input.take(n as int)[f] == x[f]);
                }
                lemma_layer_defined_block(
                    m.layers[i as int],
                    st.layers[i as int],
                    x,
                    input,
                    c,
                    c,
                    n,
                );
            }
            run_layer(
                &mut self.layers,
                &self.rechannel.out,
                condition,
                i,
                num_frames,
                Ghost(max),
            );
            proof {
                let x = stack_input(m.layers, st.layers, first, c, n, i as nat);
                assert forall|f: int| 0 <= f < n implies #[trigger] input[f] == x[f] by {
                    assert(input.take(n as int)[f] == x[f]);
                }
                lemma_run_reads_block(m.layers[i as int], st.layers[i as int], input, x, c, c, n);
                assert(layer_models(self.layers@) =~= m.layers);
                assert forall|j: int| 0 <= j < heard.len() implies same_later(
                    heard[j],
                    #[trigger] self.layers@[j],
                    n as int,
                ) by {
                    assert(same_later(heard[j], was[j], n as int));
                }
                assert forall|j: int| 0 <= j < heard.len() implies #[trigger] layer_histories(
                    self.layers@,
                )[j] == if j < i + 1 {
                    stack_run(m.layers, st.layers, first, c, n, j).history
                } else {
                    st.layers[j]
                } by {
                    assert(layer_histories(was)[j] == was[j].conv.history());
                    if j != i {
                        assert(self.layers@[j] == was[j]);
                    }
                }
            }
            let ghost low = self.head_inputs;
            accumulate(self.layers[i].skip(), &mut self.head_inputs, num_frames);
            assert(self.head_inputs.right(n as int) =~= low.right(n as int));
            proof {
                let skip = self.layers@[i as int].skip_spec()@;
                let run = stack_run(m.layers, st.layers, first, c, n, i as int);
                let before = stack_head(m.layers, st.layers, first, c, n, start, i as nat);
                assert forall|f: int| 0 <= f < n implies #[trigger] self.head_inputs.left(
                    n as int,
                )[f] == added(before, run.skip)[f] by {
                    assert(sum.take(n as int)[f] == before[f]);
                    assert(skip.take(n as int)[f] == run.skip[f]);
                    assert(sum[f].len() == self.head_output_size);
                    assert(self.head_inputs.left(n as int)[f] =~= added(before, run.skip)[f]);
                }
                assert(before.len() == n);
                assert(self.head_inputs.left(n as int) =~= added(before, run.skip));
            }
            i += 1;
        }
        let ghost summed = stack_head(m.layers, st.layers, first, c, n, start, m.layers.len());
        assert(layer_histories(self.layers@) =~= array_run(
            m,
            st,
            input@,
            c,
            match head_in {
                Some(h) => Some(h@),
                None => None,
            },
            n,
        ).state.layers);
        proof {
            let rows = self.head_output_size as nat;
            assert forall|f: int| 0 <= f < n implies #[trigger] top_rows(
                self.head_inputs@,
                n,
                rows,
            )[f] == summed[f] by {
                assert(self.head_inputs.left(n as int)[f] == summed[f]);
                assert(self.head_inputs@[f].len() == rows);
                assert(self.head_inputs@[f].take(rows as int) =~= self.head_inputs@[f]);
            }
            assert(top_rows(self.head_inputs@, n, rows) =~= summed);
        }
        self.head_rechannel.process(&self.head_inputs, num_frames);
        proof {
            let y = dilated_block(m.head, st.head, summed);
            assert(self.head_rechannel.out.left(n as int) =~= y);
            assert(self.head_rechannel.out.right(n as int)
                =~= entry.head_rechannel.out.right(n as int));
            assert(self.rechannel.out.right(n as int) =~= old(self).rechannel.out.right(n as int));
        }
    }
}

/// Run layer `i`, which reads the output of the layer before, the first layer
/// `first`.
fn run_layer<S: Scalar>(
    layers: &mut Vec<Layer<S>>,
    first: &Mat<S>,
    condition: &Mat<S>,
    i: usize,
    num_frames: usize,
    Ghost(max): Ghost<nat>,
)
    requires
        lawful::<S>(),
        i < old(layers)@.len(),
        old(layers)@[i as int].wf(),
        old(layers)@[i as int].sized(max),
        layer_defined(
            old(layers)@[i as int].model(),
            old(layers)@[i as int].conv.history(),
            if i == 0 {
                first@
            } else {
                old(layers)@[i - 1].out_next@
            },
            condition@,
            num_frames as nat,
        ),
        i == 0 ==> {
            &&& first.wf()
            &&& old(layers)@[i as int].channels <= first.rows
            &&& num_frames <= first.cols
        },
        i > 0 ==> {
            &&& old(layers)@[i - 1].out_next.wf()
            &&& old(layers)@[i as int].channels <= old(layers)@[i - 1].out_next.rows
            &&& num_frames <= old(layers)@[i - 1].out_next.cols
        },
        condition.wf(),
        old(layers)@[i as int].cond() <= condition.rows,
        num_frames <= condition.cols,
        num_frames <= max,
    ensures
        final(layers)@.len() == old(layers)@.len(),
        forall|j: int|
            0 <= j < old(layers)@.len() && j != i ==> #[trigger] final(layers)@[j] == old(
                layers,
            )@[j],
        final(layers)@[i as int].wf(),
        final(layers)@[i as int].sized(max),
        final(layers)@[i as int].model() == old(layers)@[i as int].model(),
        ({
            let run = layer_run(
                old(layers)@[i as int].model(),
                old(layers)@[i as int].conv.history(),
                if i == 0 {
                    first@
                } else {
                    old(layers)@[i - 1].out_next@
                },
                condition@,
                num_frames as nat,
            );
            &&& final(layers)@[i as int].conv.history() == run.history
            &&& final(layers)@[i as int].skip_spec().left(num_frames as int) == run.skip
            &&& final(layers)@[i as int].out_next.left(num_frames as int) == run.next
        }),
        same_later(old(layers)@[i as int], final(layers)@[i as int], num_frames as int),
{
    if i == 0 {
        layers[i].process(first, condition, num_frames);
    } else {
        let (before, rest) = layers.as_mut_slice().split_at_mut(i);
        rest[0].process(&before[i - 1].out_next, condition, num_frames);
    }
}

/// Add the top channels of the first `num_frames` frames of `src` to `sum`.
fn accumulate<S: Scalar>(src: &Mat<S>, sum: &mut Mat<S>, num_frames: usize)
    requires
        lawful::<S>(),
        src.wf(),
        old(sum).wf(),
        old(sum).rows <= src.rows,
        num_frames <= src.cols,
        num_frames <= old(sum).cols,
    ensures
        final(sum).shaped(old(sum).rows as nat, old(sum).cols as nat),
        final(sum)@ == overlay(
            old(sum)@,
            Seq::new(
                num_frames as nat,
                |f: int|
                    Seq::new(
                        old(sum).rows as nat,
                        |r: int| old(sum)@[f][r].add_spec(src@[f][r]),
                    ),
            ),
        ),
{
    let ghost first = sum@;
    let ghost rows = sum.rows as nat;
    let ghost want = Seq::new(
        num_frames as nat,
        |f: int| Seq::new(rows, |r: int| first[f][r].add_spec(src@[f][r])),
    );
    let mut f: usize = 0;
    assert(sum@ =~= overlay(first, want.take(0)));
    while f < num_frames
        invariant
            lawful::<S>(),
            src.wf(),
            sum.shaped(rows, old(sum).cols as nat),
            rows == old(sum).rows,
            rows <= src.rows,
            f <= num_frames <= src.cols,
            num_frames <= sum.cols,
            first == old(sum)@,
            want == Seq::new(
                num_frames as nat,
                |f: int| Seq::new(rows, |r: int| first[f][r].add_spec(src@[f][r])),
            ),
            sum@ == overlay(first, want.take(f as int)),
        decreases num_frames - f,
    {
        let ghost before = sum@;
        let mut r: usize = 0;
        assert(before[f as int] == first[f as int]);
        while r < sum.rows
            invariant
                lawful::<S>(),
                src.wf(),
                sum.shaped(rows, old(sum).cols as nat),
                r <= rows,
                rows <= src.rows,
                f < src.cols,
                f < sum.cols,
                before.len() == sum.cols,
                before[f as int] == first[f as int],
                first[f as int].len() == rows,
                forall|k: int|
                    0 <= k < before.len() && k != f ==> #[trigger] sum@[k] == before[k],
                forall|q: int|
                    0 <= q < rows ==> #[trigger] sum@[f as int][q] == if q < r {
                        first[f as int][q].add_spec(src@[f as int][q])
                    } else {
                        first[f as int][q]
                    },
            decreases rows - r,
        {
            let v = sum.get(r, f).add(src.get(r, f));
            sum.set(r, f, v);
            r += 1;
        }
        f += 1;
        proof {
            assert(sum@[f - 1] =~= want[f - 1]);
            assert(sum@ =~= overlay(first, want.take(f as int)));
        }
    }
    assert(want.take(num_frames as int) =~= want);
}

/// Two signals agree on their first `n` frames.
pub open spec fn agree<T>(x: Seq<T>, y: Seq<T>, n: nat) -> bool {
    forall|f: int| 0 <= f < n ==> #[trigger] x[f] == #[trigger] y[f]
}

/// A layer reads no frame beyond its block.
pub proof fn lemma_run_reads_block<S: Scalar>(
    m: LayerModel<S>,
    history: Seq<Seq<S>>,
    x: Seq<Seq<S>>,
    y: Seq<Seq<S>>,
    c: Seq<Seq<S>>,
    d: Seq<Seq<S>>,
    n: nat,
)
    requires
        agree(x, y, n),
        agree(c, d, n),
    ensures
        layer_run(m, history, x, c, n) == layer_run(m, history, y, d, n),
{
    let a = layer_run(m, history, x, c, n);
    let b = layer_run(m, history, y, d, n);
    assert(conv_inputs(m, x, c, n) =~= conv_inputs(m, y, d, n));
    assert(a.hidden =~= b.hidden);
    assert(a.skip =~= b.skip);
    assert(a.next =~= b.next);
}

/// What a layer brings its activations comes from no frame beyond its block.
pub proof fn lemma_layer_defined_block<S: Scalar>(
    m: LayerModel<S>,
    history: Seq<Seq<S>>,
    x: Seq<Seq<S>>,
    y: Seq<Seq<S>>,
    c: Seq<Seq<S>>,
    d: Seq<Seq<S>>,
    n: nat,
)
    requires
        agree(x, y, n),
        agree(c, d, n),
        layer_defined(m, history, x, c, n),
    ensures
        layer_defined(m, history, y, d, n),
{
    assert(conv_inputs(m, x, c, n) =~= conv_inputs(m, y, d, n));
    let made = dilated_block(m.conv, history, conv_inputs(m, x, c, n));
    assert forall|f: int| 0 <= f < n implies frame_defined(
        m,
        #[trigger] summed(m, made[f], d[f]),
    ) by {
        assert(c[f] == d[f]);
        assert(frame_defined(m, summed(m, made[f], c[f])));
    }
}

/// What a stack brings its activations comes from no frame beyond its block.
pub proof fn lemma_array_defined_block<S: Scalar>(
    m: ArrayModel<S>,
    st: ArrayState<S>,
    x: Seq<Seq<S>>,
    y: Seq<Seq<S>>,
    c: Seq<Seq<S>>,
    d: Seq<Seq<S>>,
    n: nat,
)
    requires
        agree(x, y, n),
        agree(c, d, n),
        array_defined(m, st, x, c, n),
    ensures
        array_defined(m, st, y, d, n),
{
    let first = affine_block(m.rechannel, x, n);
    assert(first =~= affine_block(m.rechannel, y, n));
    assert forall|i: int| 0 <= i < m.layers.len() implies layer_defined(
        #[trigger] m.layers[i],
        st.layers[i],
        stack_input(m.layers, st.layers, first, d, n, i as nat),
        d,
        n,
    ) by {
        lemma_stack_reads_block(m.layers, st.layers, first, c, d, n, first, i as nat);
        let z = stack_input(m.layers, st.layers, first, c, n, i as nat);
        lemma_layer_defined_block(m.layers[i], st.layers[i], z, z, c, d, n);
    }
}

/// The layers of a stack read no frame of the condition beyond the block.
pub proof fn lemma_stack_reads_block<S: Scalar>(
    layers: Seq<LayerModel<S>>,
    histories: Seq<Seq<Seq<S>>>,
    x: Seq<Seq<S>>,
    c: Seq<Seq<S>>,
    d: Seq<Seq<S>>,
    n: nat,
    start: Seq<Seq<S>>,
    i: nat,
)
    requires
        agree(c, d, n),
    ensures
        stack_input(layers, histories, x, c, n, i) == stack_input(layers, histories, x, d, n, i),
        stack_run(layers, histories, x, c, n, i as int) == stack_run(
            layers,
            histories,
            x,
            d,
            n,
            i as int,
        ),
        stack_head(layers, histories, x, c, n, start, i) == stack_head(
            layers,
            histories,
            x,
            d,
            n,
            start,
            i,
        ),
    decreases i,
{
    if i > 0 {
        lemma_stack_reads_block(layers, histories, x, c, d, n, start, (i - 1) as nat);
    }
    let y = stack_input(layers, histories, x, c, n, i);
    lemma_run_reads_block(layers[i as int], histories[i as int], y, y, c, d, n);
}

/// A stack reads no frame beyond its block.
pub proof fn lemma_array_reads_block<S: Scalar>(
    m: ArrayModel<S>,
    st: ArrayState<S>,
    x: Seq<Seq<S>>,
    y: Seq<Seq<S>>,
    c: Seq<Seq<S>>,
    d: Seq<Seq<S>>,
    g: Option<Seq<Seq<S>>>,
    h: Option<Seq<Seq<S>>>,
    n: nat,
)
    requires
        agree(x, y, n),
        agree(c, d, n),
        match (g, h) {
            (Some(a), Some(b)) => agree(a, b, n),
            (None, None) => true,
            _ => false,
        },
    ensures
        array_run(m, st, x, c, g, n) == array_run(m, st, y, d, h, n),
{
    let a = array_run(m, st, x, c, g, n);
    let b = array_run(m, st, y, d, h, n);
    let first = affine_block(m.rechannel, x, n);
    assert(first =~= affine_block(m.rechannel, y, n));
    let start = head_start(m.head.inputs, g, n);
    assert(start =~= head_start(m.head.inputs, h, n));
    assert forall|i: int| 0 <= i < m.layers.len() implies #[trigger] a.state.layers[i]
        == b.state.layers[i] by {
        lemma_stack_reads_block(m.layers, st.layers, first, c, d, n, start, i as nat);
    }
    assert(a.state.layers =~= b.state.layers);
    lemma_stack_reads_block(m.layers, st.layers, first, c, d, n, start, m.layers.len());
}

} // verus!
