//! The dilated causal convolution with the history of its input.

use crate::num::{lawful, zeros, Scalar};
use crate::pure::mat::{lemma_cell, silence, Mat};
use crate::pure::nn::{
    bias_zeros, groups_divide, groups_message, groups_text, lemma_group_member, lemma_group_of,
    lemma_group_slot, listed_weight, mac, mac_row, matrix_rows, overlay, oversize_message,
    oversize_text, product_fits, same_group, top_rows, underflow_text, Weights,
};
use vstd::arithmetic::mul::*;
use vstd::prelude::*;

verus! {

/// A dilated causal convolution as a mathematical map.
pub struct Dilated<S> {
    /// Channels read.
    pub inputs: nat,
    /// Channels written.
    pub outputs: nat,
    /// Distance between taps, in frames.
    pub dilation: nat,
    /// Per tap, oldest first: one row of input weights per output.
    pub weight: Seq<Seq<Seq<S>>>,
    /// What each output starts from.
    pub offset: Seq<S>,
}

/// How many frames the convolution looks back.
pub open spec fn lookback<S>(m: Dilated<S>) -> int {
    (m.weight.len() - 1) * m.dilation
}

/// Output `o` at frame `at` of a signal, with the `k` oldest taps summed.
pub open spec fn tap_sum<S: Scalar>(
    m: Dilated<S>,
    x: Seq<Seq<S>>,
    at: int,
    o: int,
    k: nat,
) -> S
    decreases k,
{
    if k == 0 {
        m.offset[o]
    } else {
        mac(
            tap_sum(m, x, at, o, (k - 1) as nat),
            m.weight[k - 1][o],
            x[at - m.dilation * (m.weight.len() - k)],
            m.inputs,
        )
    }
}

/// All outputs at frame `at` of a signal.
pub open spec fn dilated<S: Scalar>(m: Dilated<S>, x: Seq<Seq<S>>, at: int) -> Seq<S> {
    Seq::new(m.outputs, |o: int| tap_sum(m, x, at, o, m.weight.len()))
}

/// What the convolution makes of a block that follows a history.
pub open spec fn dilated_block<S: Scalar>(
    m: Dilated<S>,
    history: Seq<Seq<S>>,
    x: Seq<Seq<S>>,
) -> Seq<Seq<S>> {
    Seq::new(x.len(), |f: int| dilated(m, history + x, lookback(m) + f))
}

/// The history that the next block follows: as many of the latest frames as
/// the convolution looks back.
pub open spec fn rolled<T>(history: Seq<T>, x: Seq<T>) -> Seq<T> {
    (history + x).skip(x.len() as int)
}

/// How many weights the convolution reads.
pub open spec fn dilated_count(
    inputs: nat,
    outputs: nat,
    taps: nat,
    bias: bool,
    groups: nat,
) -> nat {
    outputs * (inputs / groups) * taps + if bias {
        outputs
    } else {
        0
    }
}

/// The convolution that the weights from `pos` on describe.
pub open spec fn dilated_from<S: Scalar>(
    data: Seq<S>,
    pos: int,
    inputs: nat,
    outputs: nat,
    taps: nat,
    bias: bool,
    dilation: nat,
    groups: nat,
) -> Dilated<S> {
    let opg = (outputs / groups) as int;
    let ipg = (inputs / groups) as int;
    Dilated {
        inputs,
        outputs,
        dilation,
        weight: Seq::new(
            taps,
            |k: int|
                Seq::new(
                    outputs,
                    |o: int|
                        Seq::new(
                            inputs,
                            |i: int| listed_weight(data, pos, opg, ipg, taps as int, o, i, k),
                        ),
                ),
        ),
        offset: if bias {
            Seq::new(outputs, |o: int| data[pos + outputs * ipg * taps + o])
        } else {
            zeros::<S>(outputs)
        },
    }
}

/// The complaint about a convolution without taps or without distance.
pub open spec fn taps_text() -> Seq<char> {
    "Conv1D: kernel_size and dilation must be >= 1"@
}

/// Why there is no convolution of these channels, where there is none.
pub open spec fn dilated_error(
    inputs: nat,
    outputs: nat,
    taps: nat,
    dilation: nat,
    groups: nat,
) -> Option<Seq<char>> {
    if !groups_divide(inputs, outputs, groups) {
        Some(groups_text("Conv1D: channels ("@, inputs, outputs, groups))
    } else if taps == 0 || dilation == 0 {
        Some(taps_text())
    } else if inputs * outputs > usize::MAX {
        Some(oversize_text())
    } else {
        None
    }
}

/// A dilated causal convolution with its history and its output buffer.
pub struct Conv1D<S> {
    /// Per tap: outputs by inputs, block-diagonal when grouped.
    pub weight: Vec<Mat<S>>,
    /// Empty when there is no bias.
    pub bias: Vec<S>,
    /// Whether there is a bias.
    pub biased: bool,
    /// Distance between taps, in frames.
    pub dilation: usize,
    /// Number of groups.
    pub groups: usize,
    /// Channels read.
    pub in_ch: usize,
    /// Channels written.
    pub out_ch: usize,
    /// The history, followed by the current block.
    pub ext: Mat<S>,
    /// The longest block there is room for.
    pub max_frames: usize,
    /// The frames computed last.
    pub out: Mat<S>,
}

impl<S: Scalar> Conv1D<S> {
    /// Outputs per group.
    pub open spec fn opg(&self) -> int {
        self.out_ch as int / self.groups as int
    }

    /// Inputs per group.
    pub open spec fn ipg(&self) -> int {
        self.in_ch as int / self.groups as int
    }

    /// The shapes agree and no weight crosses a group.
    pub open spec fn wf(&self) -> bool {
        &&& groups_divide(self.in_ch as nat, self.out_ch as nat, self.groups as nat)
        &&& self.weight@.len() >= 1
        &&& self.dilation >= 1
        &&& self.bias@.len() == if self.biased { self.out_ch as nat } else { 0 }
        &&& self.out.wf()
        &&& self.out.rows == self.out_ch
        &&& forall|k: int|
            0 <= k < self.weight@.len() ==> (#[trigger] self.weight@[k]).shaped(
                self.out_ch as nat,
                self.in_ch as nat,
            )
        &&& forall|k: int, i: int, o: int|
            0 <= k < self.weight@.len() && 0 <= i < self.in_ch && 0 <= o < self.out_ch
                && !same_group(self.opg(), self.ipg(), o, i)
                ==> #[trigger] self.weight@[k]@[i][o] == S::zero_spec()
    }

    /// The buffers have room for blocks of this many frames.
    pub open spec fn sized(&self, max_frames: nat) -> bool {
        &&& self.max_frames == max_frames
        &&& self.ext.shaped(self.in_ch as nat, (self.lookback_spec() + max_frames) as nat)
        &&& self.out.shaped(self.out_ch as nat, max_frames)
    }

    /// How many frames this convolution looks back.
    pub open spec fn lookback_spec(&self) -> int {
        (self.weight@.len() - 1) * self.dilation
    }

    /// The map that this convolution computes.
    pub open spec fn model(&self) -> Dilated<S> {
        Dilated {
            inputs: self.in_ch as nat,
            outputs: self.out_ch as nat,
            dilation: self.dilation as nat,
            weight: Seq::new(
                self.weight@.len(),
                |k: int| matrix_rows(self.weight@[k]@, self.out_ch as nat),
            ),
            offset: if self.biased {
                self.bias@
            } else {
                zeros::<S>(self.out_ch as nat)
            },
        }
    }

    /// The frames that precede the next block.
    pub open spec fn history(&self) -> Seq<Seq<S>> {
        self.ext@.take(self.lookback_spec())
    }

    /// How many weights this convolution reads.
    pub open spec fn count(&self) -> nat {
        dilated_count(
            self.in_ch as nat,
            self.out_ch as nat,
            self.weight@.len(),
            self.biased,
            self.groups as nat,
        )
    }

    /// What reading weights leaves alone.
    pub open spec fn same_shape(&self, other: &Self) -> bool {
        &&& self.in_ch == other.in_ch
        &&& self.out_ch == other.out_ch
        &&& self.biased == other.biased
        &&& self.groups == other.groups
        &&& self.dilation == other.dilation
        &&& self.weight@.len() == other.weight@.len()
        &&& self.ext == other.ext
        &&& self.max_frames == other.max_frames
        &&& self.out == other.out
    }

    /// What computing leaves alone.
    pub open spec fn same_map(&self, other: &Self) -> bool {
        &&& self.in_ch == other.in_ch
        &&& self.out_ch == other.out_ch
        &&& self.biased == other.biased
        &&& self.groups == other.groups
        &&& self.dilation == other.dilation
        &&& self.weight == other.weight
        &&& self.bias == other.bias
    }

    /// A convolution without weights and without room for frames.
    pub fn new(
        in_channels: usize,
        out_channels: usize,
        kernel_size: usize,
        bias: bool,
        dilation: usize,
        groups: usize,
    ) -> (r: Result<Self, String>)
        requires
            lawful::<S>(),
        ensures
            ({
                let error = dilated_error(
                    in_channels as nat,
                    out_channels as nat,
                    kernel_size as nat,
                    dilation as nat,
                    groups as nat,
                );
                match r {
                    Ok(c) => {
                        &&& error is None
                        &&& c.wf()
                        &&& c.in_ch == in_channels
                        &&& c.out_ch == out_channels
                        &&& c.weight@.len() == kernel_size
                        &&& c.biased == bias
                        &&& c.dilation == dilation
                        &&& c.groups == groups
                    },
                    Err(e) => error == Some(e@),
                }
            }),
    {
        if groups == 0 || in_channels % groups != 0 || out_channels % groups != 0 {
            return Err(groups_message("Conv1D: channels (", in_channels, out_channels, groups));
        }
        if kernel_size == 0 || dilation == 0 {
            return Err("Conv1D: kernel_size and dilation must be >= 1".to_owned());
        }
        if !product_fits(in_channels, out_channels) {
            return Err(oversize_message());
        }
        let mut weight: Vec<Mat<S>> = Vec::new();
        let mut k: usize = 0;
        while k < kernel_size
            invariant
                lawful::<S>(),
                in_channels * out_channels <= usize::MAX,
                k <= kernel_size,
                weight@.len() == k,
                forall|q: int|
                    0 <= q < k ==> {
                        &&& (#[trigger] weight@[q]).shaped(out_channels as nat, in_channels as nat)
                        &&& weight@[q]@ == silence::<S>(out_channels as nat, in_channels as nat)
                    },
            decreases kernel_size - k,
        {
            weight.push(Mat::new(out_channels, in_channels));
            k += 1;
        }
        let bias_values = bias_zeros(bias, out_channels);
        let ext: Mat<S> = Mat::new(in_channels, 0);
        let out: Mat<S> = Mat::new(out_channels, 0);
        Ok(
            Conv1D {
                weight,
                bias: bias_values,
                biased: bias,
                dilation,
                groups,
                in_ch: in_channels,
                out_ch: out_channels,
                ext,
                max_frames: 0,
                out,
            },
        )
    }

    /// Number of taps.
    pub fn kernel_size(&self) -> (r: usize)
        ensures
            r == self.weight@.len(),
    {
        self.weight.len()
    }

    /// Distance between taps, in frames.
    pub fn dilation(&self) -> (r: usize)
        ensures
            r == self.dilation,
    {
        self.dilation
    }

    /// How many frames this convolution looks back.
    pub fn lookback(&self) -> (r: usize)
        requires
            self.wf(),
            lookback(self.model()) <= usize::MAX,
        ensures
            r == lookback(self.model()),
            r == self.lookback_spec(),
    {
        (self.weight.len() - 1) * self.dilation
    }

    /// Take the weights from a list: for each output, for each input of its
    /// group, the taps; then the bias.
    pub fn set_weights(&mut self, w: &mut Weights<S>) -> (r: Result<(), String>)
        requires
            lawful::<S>(),
            old(self).wf(),
            old(w).wf(),
        ensures
            final(self).wf(),
            final(self).same_shape(old(self)),
            final(w).wf(),
            final(w).data == old(w).data,
            r is Ok <==> old(w).pos + old(self).count() <= old(w).data@.len(),
            r is Ok ==> {
                &&& final(w).pos == old(w).pos + old(self).count()
                &&& final(self).model() == dilated_from(
                    old(w).data@,
                    old(w).pos as int,
                    old(self).in_ch as nat,
                    old(self).out_ch as nat,
                    old(self).weight@.len(),
                    old(self).biased,
                    old(self).dilation as nat,
                    old(self).groups as nat,
                )
            },
            r matches Err(e) ==> {
                &&& e@ == underflow_text(old(w).data@.len())
                &&& final(w).pos == old(w).data@.len()
            },
    {
        let out_per_group = self.out_ch / self.groups;
        let in_per_group = self.in_ch / self.groups;
        let kernel = self.weight.len();
        let ghost data = w.data@;
        let ghost pos0 = w.pos as int;
        let ghost first = *self;
        let mut o: usize = 0;
        proof {
            lemma_mul_basics(in_per_group as int);
            lemma_mul_basics(kernel as int);
        }
        while o < self.out_ch
            invariant
                lawful::<S>(),
                self.wf(),
                first == *old(self),
                self.same_shape(&first),
                self.bias == first.bias,
                out_per_group == self.opg(),
                in_per_group == self.ipg(),
                kernel == self.weight@.len(),
                w.wf(),
                w.data == old(w).data,
                data == w.data@,
                pos0 == old(w).pos,
                o <= self.out_ch,
                w.pos == pos0 + o * in_per_group * kernel,
                forall|k: int, i: int, q: int|
                    0 <= k < kernel && 0 <= i < self.in_ch && 0 <= q < o
                        ==> #[trigger] self.weight@[k]@[i][q] == listed_weight(
                        data,
                        pos0,
                        self.opg(),
                        self.ipg(),
                        kernel as int,
                        q,
                        i,
                        k,
                    ),
            decreases self.out_ch - o,
        {
            proof {
                lemma_group_of(self.out_ch as int, self.groups as int, o as int);
            }
            let g: usize = o / out_per_group;
            let mut j: usize = 0;
            proof {
                assert forall|k: int, i: int, q: int|
                    0 <= k < kernel && 0 <= i < self.in_ch && written(
                        o as int,
                        0,
                        0,
                        q,
                        i % self.ipg(),
                        k,
                    ) implies #[trigger] self.weight@[k]@[i][q] == listed_weight(
                    data,
                    pos0,
                    self.opg(),
                    self.ipg(),
                    kernel as int,
                    q,
                    i,
                    k,
                ) by {
                    lemma_group_slot(self.in_ch as int, self.groups as int, i);
                }
            }
            while j < in_per_group
                invariant
                    lawful::<S>(),
                    self.wf(),
                    first == *old(self),
                    self.same_shape(&first),
                    self.bias == first.bias,
                    out_per_group == self.opg(),
                    in_per_group == self.ipg(),
                    kernel == self.weight@.len(),
                    w.wf(),
                    w.data == old(w).data,
                    data == w.data@,
                    pos0 == old(w).pos,
                    o < self.out_ch,
                    g == o as int / self.opg(),
                    g < self.groups,
                    j <= in_per_group,
                    w.pos == pos0 + (o * in_per_group + j) * kernel,
                    forall|k: int, i: int, q: int|
                        0 <= k < kernel && 0 <= i < self.in_ch && written(
                            o as int,
                            j as int,
                            0,
                            q,
                            i % self.ipg(),
                            k,
                        ) ==> #[trigger] self.weight@[k]@[i][q] == listed_weight(
                            data,
                            pos0,
                            self.opg(),
                            self.ipg(),
                            kernel as int,
                            q,
                            i,
                            k,
                        ),
                decreases in_per_group - j,
            {
                proof {
                    lemma_group_member(self.in_ch as int, self.groups as int, g as int, j as int);
                    lemma_cell(in_per_group as int, self.out_ch as int, o as int, j as int);
                }
                let c: usize = g * in_per_group + j;
                let mut t: usize = 0;
                while t < kernel
                    invariant
                        lawful::<S>(),
                        self.wf(),
                        first == *old(self),
                        self.same_shape(&first),
                        self.bias == first.bias,
                        out_per_group == self.opg(),
                        in_per_group == self.ipg(),
                        kernel == self.weight@.len(),
                        w.wf(),
                        w.data == old(w).data,
                        data == w.data@,
                        pos0 == old(w).pos,
                        o < self.out_ch,
                        g == o as int / self.opg(),
                        g < self.groups,
                        j < in_per_group,
                        c == g * in_per_group + j,
                        c < self.in_ch,
                        c as int / self.ipg() == g,
                        c as int % self.ipg() == j,
                        t <= kernel,
                        0 <= o * in_per_group + j < self.out_ch * in_per_group,
                        w.pos == pos0 + (o * in_per_group + j) * kernel + t,
                        forall|k: int, i: int, q: int|
                            0 <= k < kernel && 0 <= i < self.in_ch && written(
                                o as int,
                                j as int,
                                t as int,
                                q,
                                i % self.ipg(),
                                k,
                            ) ==> #[trigger] self.weight@[k]@[i][q] == listed_weight(
                                data,
                                pos0,
                                self.opg(),
                                self.ipg(),
                                kernel as int,
                                q,
                                i,
                                k,
                            ),
                    decreases kernel - t,
                {
                    proof {
                        lemma_cell(
                            kernel as int,
                            self.out_ch * in_per_group,
                            o * in_per_group + j,
                            t as int,
                        );
                    }
                    let v = match w.next() {
                        Ok(v) => v,
                        Err(e) => {
                            return Err(e);
                        },
                    };
                    let ghost before = *self;
                    self.weight[t].set(o, c, v);
                    proof {
                        assert forall|k: int, i: int, q: int|
                            0 <= k < kernel && 0 <= i < self.in_ch && written(
                                o as int,
                                j as int,
                                t + 1,
                                q,
                                i % self.ipg(),
                                k,
                            ) implies #[trigger] self.weight@[k]@[i][q] == listed_weight(
                            data,
                            pos0,
                            self.opg(),
                            self.ipg(),
                            kernel as int,
                            q,
                            i,
                            k,
                        ) by {
                            lemma_group_slot(self.in_ch as int, self.groups as int, i);
                            if k == t && q == o && i == c {
                            } else {
                                assert(self.weight@[k]@[i][q] == before.weight@[k]@[i][q]);
                                if k == t && q == o && i % self.ipg() == j {
                                    assert(!same_group(self.opg(), self.ipg(), q, i)) by {
                                        lemma_mul_is_commutative(i / self.ipg(), self.ipg());
                                    }
                                }
                            }
                        }
                        assert forall|k: int, i: int, q: int|
                            0 <= k < kernel && 0 <= i < self.in_ch && 0 <= q < self.out_ch
                                && !same_group(
                                self.opg(),
                                self.ipg(),
                                q,
                                i,
                            ) implies #[trigger] self.weight@[k]@[i][q] == S::zero_spec() by {
                            if k == t && q == o && i == c {
                            } else {
                                assert(self.weight@[k]@[i][q] == before.weight@[k]@[i][q]);
                            }
                        }
                    }
                    t += 1;
                }
                proof {
                    lemma_mul_is_distributive_add_other_way(
                        kernel as int,
                        o * in_per_group + j,
                        1,
                    );
                }
                j += 1;
            }
            proof {
                lemma_mul_is_distributive_add_other_way(in_per_group as int, o as int, 1);
                assert forall|k: int, i: int, q: int|
                    0 <= k < kernel && 0 <= i < self.in_ch && 0 <= q < o
                        + 1 implies #[trigger] self.weight@[k]@[i][q] == listed_weight(
                    data,
                    pos0,
                    self.opg(),
                    self.ipg(),
                    kernel as int,
                    q,
                    i,
                    k,
                ) by {
                    lemma_group_slot(self.in_ch as int, self.groups as int, i);
                }
            }
            o += 1;
        }
        let ghost loaded = *self;
        let mut b: usize = 0;
        while b < self.bias.len()
            invariant
                self.wf(),
                first == *old(self),
                self.same_shape(&first),
                self.weight == loaded.weight,
                in_per_group == self.ipg(),
                kernel == self.weight@.len(),
                w.wf(),
                w.data == old(w).data,
                data == w.data@,
                pos0 == old(w).pos,
                b <= self.bias@.len(),
                w.pos == pos0 + self.out_ch * in_per_group * kernel + b,
                forall|q: int|
                    0 <= q < b ==> #[trigger] self.bias@[q] == data[pos0 + self.out_ch
                        * in_per_group * kernel + q],
            decreases self.bias@.len() - b,
        {
            let v = match w.next() {
                Ok(v) => v,
                Err(e) => {
                    return Err(e);
                },
            };
            self.bias.set(b, v);
            b += 1;
        }
        proof {
            let want = dilated_from(
                data,
                pos0,
                self.in_ch as nat,
                self.out_ch as nat,
                kernel as nat,
                self.biased,
                self.dilation as nat,
                self.groups as nat,
            );
            let got = self.model();
            assert forall|k: int| 0 <= k < kernel implies #[trigger] got.weight[k]
                == want.weight[k] by {
                assert forall|q: int| 0 <= q < self.out_ch implies #[trigger] got.weight[k][q]
                    == want.weight[k][q] by {
                    assert(got.weight[k][q] =~= want.weight[k][q]);
                }
                assert(got.weight[k] =~= want.weight[k]);
            }
            assert(got.weight =~= want.weight);
            assert(got.offset =~= want.offset);
        }
        Ok(())
    }

    /// Forget the history and make room for blocks of up to `max_frames`
    /// frames.
    pub fn set_max_buffer_size(&mut self, max_frames: usize)
        requires
            lawful::<S>(),
            old(self).wf(),
            old(self).lookback_spec() + max_frames <= usize::MAX,
            (old(self).lookback_spec() + max_frames) * old(self).in_ch <= usize::MAX,
            max_frames * old(self).out_ch <= usize::MAX,
        ensures
            final(self).wf(),
            final(self).same_map(old(self)),
            final(self).sized(max_frames as nat),
            final(self).history() == silence::<S>(
                old(self).in_ch as nat,
                old(self).lookback_spec() as nat,
            ),
            final(self).out@ == silence::<S>(old(self).out_ch as nat, max_frames as nat),
    {
        self.max_frames = max_frames;
        let back = self.lookback();
        self.ext.reset(self.in_ch, back + max_frames);
        self.out.reset(self.out_ch, max_frames);
        assert(self.history() =~= silence::<S>(self.in_ch as nat, back as nat));
    }

    /// Convolve the first `num_frames` frames, which follow the history, and
    /// let the history move on.
    pub fn process(&mut self, input: &Mat<S>, num_frames: usize)
        requires
            lawful::<S>(),
            old(self).wf(),
            old(self).sized(old(self).max_frames as nat),
            input.wf(),
            old(self).in_ch <= input.rows,
            num_frames <= input.cols,
            num_frames <= old(self).max_frames,
        ensures
            final(self).wf(),
            final(self).same_map(old(self)),
            final(self).sized(old(self).max_frames as nat),
            final(self).history() == rolled(
                old(self).history(),
                top_rows(input@, num_frames as nat, old(self).in_ch as nat),
            ),
            final(self).out@ == overlay(
                old(self).out@,
                dilated_block(
                    old(self).model(),
                    old(self).history(),
                    top_rows(input@, num_frames as nat, old(self).in_ch as nat),
                ),
            ),
    {
        let rf = self.lookback();
        let ghost m = self.model();
        let ghost hist = self.history();
        let ghost x = top_rows(input@, num_frames as nat, self.in_ch as nat);
        let ghost full = hist + x;

        // Append the new block after the history.
        let mut f: usize = 0;
        while f < num_frames
            invariant
                lawful::<S>(),
                self.wf(),
                self.same_map(old(self)),
                self.sized(old(self).max_frames as nat),
                self.out == old(self).out,
                rf == self.lookback_spec(),
                input.wf(),
                self.in_ch <= input.rows,
                f <= num_frames <= input.cols,
                num_frames <= self.max_frames,
                hist == old(self).history(),
                hist.len() == rf,
                x == top_rows(input@, num_frames as nat, self.in_ch as nat),
                full == hist + x,
                forall|c: int| 0 <= c < rf + f ==> #[trigger] self.ext@[c] == full[c],
            decreases num_frames - f,
        {
            let src = vstd::slice::slice_subrange(input.col(f), 0, self.in_ch);
            self.ext.put_col(rf + f, src);
            proof {
                assert(src@ =~= full[rf + f]);
            }
            f += 1;
        }

        // Convolve.
        f = 0;
        assert(self.out@ =~= overlay(old(self).out@, dilated_block(m, hist, x).take(0)));
        while f < num_frames
            invariant
                lawful::<S>(),
                self.wf(),
                self.same_map(old(self)),
                self.sized(old(self).max_frames as nat),
                m == self.model(),
                m == old(self).model(),
                rf == self.lookback_spec(),
                f <= num_frames,
                num_frames <= self.max_frames,
                hist == old(self).history(),
                hist.len() == rf,
                x.len() == num_frames,
                full == hist + x,
                forall|c: int| 0 <= c < rf + num_frames ==> #[trigger] self.ext@[c] == full[c],
                self.out@ == overlay(old(self).out@, dilated_block(m, hist, x).take(f as int)),
            decreases num_frames - f,
        {
            let ghost before = self.out@;
            let mut o: usize = 0;
            while o < self.out_ch
                invariant
                    lawful::<S>(),
                    self.wf(),
                    self.same_map(old(self)),
                    self.sized(old(self).max_frames as nat),
                    m == self.model(),
                    m == old(self).model(),
                    rf == self.lookback_spec(),
                    f < num_frames,
                    num_frames <= self.max_frames,
                    full.len() == rf + num_frames,
                    forall|c: int|
                        0 <= c < rf + num_frames ==> #[trigger] self.ext@[c] == full[c],
                    o <= self.out_ch,
                    before.len() == self.max_frames,
                    self.out@.len() == before.len(),
                    forall|c: int|
                        0 <= c < before.len() && c != f ==> #[trigger] self.out@[c] == before[c],
                    self.out@[f as int].len() == self.out_ch,
                    forall|q: int|
                        0 <= q < o ==> #[trigger] self.out@[f as int][q] == dilated(
                            m,
                            full,
                            rf + f,
                        )[q],
                decreases self.out_ch - o,
            {
                let v = self.sum_taps(o, rf + f);
                proof {
                    lemma_same_signal(m, self.ext@, full, rf + f, o as int, m.weight.len());
                }
                self.out.set(o, f, v);
                o += 1;
            }
            f += 1;
            proof {
                assert(self.out@[f - 1] =~= dilated_block(m, hist, x)[f - 1]);
                assert(self.out@ =~= overlay(
                    old(self).out@,
                    dilated_block(m, hist, x).take(f as int),
                ));
            }
        }
        assert(dilated_block(m, hist, x).take(num_frames as int) =~= dilated_block(m, hist, x));

        // Keep the latest frames for the next block.
        let mut c: usize = 0;
        while c < rf
            invariant
                self.wf(),
                self.same_map(old(self)),
                self.sized(old(self).max_frames as nat),
                rf == self.lookback_spec(),
                c <= rf,
                num_frames <= self.max_frames,
                full.len() == rf + num_frames,
                self.out@ == overlay(old(self).out@, dilated_block(m, hist, x)),
                forall|q: int| 0 <= q < c ==> #[trigger] self.ext@[q] == full[q + num_frames],
                forall|q: int|
                    c <= q < rf + num_frames ==> #[trigger] self.ext@[q] == full[q],
            decreases rf - c,
        {
            self.ext.copy_col(c + num_frames, c);
            c += 1;
        }
        assert(self.history() =~= rolled(hist, x));
    }

    /// One output at one frame of the buffered signal.
    fn sum_taps(&self, o: usize, at: usize) -> (r: S)
        requires
            lawful::<S>(),
            self.wf(),
            self.ext.wf(),
            self.ext.rows == self.in_ch,
            o < self.out_ch,
            self.lookback_spec() <= at < self.ext.cols,
        ensures
            r == tap_sum(self.model(), self.ext@, at as int, o as int, self.weight@.len()),
    {
        let kernel = self.weight.len();
        let mut acc = if self.biased {
            self.bias[o]
        } else {
            S::zero()
        };
        let mut k: usize = 0;
        while k < kernel
            invariant
                lawful::<S>(),
                self.wf(),
                self.ext.wf(),
                self.ext.rows == self.in_ch,
                o < self.out_ch,
                self.lookback_spec() <= at < self.ext.cols,
                kernel == self.weight@.len(),
                k <= kernel,
                acc == tap_sum(self.model(), self.ext@, at as int, o as int, k as nat),
            decreases kernel - k,
        {
            proof {
                lemma_mul_inequality(kernel - 1 - k, kernel - 1, self.dilation as int);
                lemma_mul_is_commutative(kernel - 1 - k, self.dilation as int);
                lemma_mul_nonnegative(self.dilation as int, kernel - 1 - k);
            }
            let lb = self.dilation * (kernel - 1 - k);
            let x = self.ext.col(at - lb);
            acc = mac_row(&self.weight[k], o, x, acc);
            k += 1;
        }
        acc
    }
}

/// Entry `k` of input slot `j` of output `q` comes before the place that is
/// written next.
spec fn written(o: int, j: int, t: int, q: int, slot: int, k: int) -> bool {
    0 <= q < o || q == o && (slot < j || slot == j && k < t)
}

/// A sum of taps sees only the frames it reads.
pub proof fn lemma_same_signal<S: Scalar>(
    m: Dilated<S>,
    a: Seq<Seq<S>>,
    b: Seq<Seq<S>>,
    at: int,
    o: int,
    k: nat,
)
    requires
        m.weight.len() >= 1,
        k <= m.weight.len(),
        lookback(m) <= at,
        forall|c: int| at - lookback(m) <= c <= at ==> #[trigger] a[c] == b[c],
    ensures
        tap_sum(m, a, at, o, k) == tap_sum(m, b, at, o, k),
    decreases k,
{
    if k > 0 {
        lemma_same_signal(m, a, b, at, o, (k - 1) as nat);
        let n = m.weight.len() - k;
        lemma_mul_inequality(n, m.weight.len() - 1, m.dilation as int);
        lemma_mul_is_commutative(n, m.dilation as int);
        lemma_mul_nonnegative(m.dilation as int, n);
        assert(a[at - m.dilation * n] == b[at - m.dilation * n]);
    }
}

} // verus!
