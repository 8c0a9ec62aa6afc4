//! The building blocks of the network: the reader of the weight list, the
//! pointwise convolution and the dilated causal convolution with its history.

use crate::num::{lawful, zeros, Scalar};
use crate::pure::mat::{lemma_cell, silence, Mat};
use crate::text::{decimal, push_decimal, with_number};
use vstd::arithmetic::mul::*;
use vstd::prelude::*;
use vstd::string::*;

verus! {

// Signals ====================================================================

/// `new` in front, and behind it what `old` holds beyond the length of `new`.
pub open spec fn overlay<T>(old: Seq<T>, new: Seq<T>) -> Seq<T> {
    Seq::new(old.len(), |f: int| if f < new.len() { new[f] } else { old[f] })
}

/// The top `rows` channels of the first `n` frames.
pub open spec fn top_rows<S>(x: Seq<Seq<S>>, n: nat, rows: nat) -> Seq<Seq<S>> {
    Seq::new(n, |f: int| x[f].take(rows as int))
}

// Weights ====================================================================

/// A reader that hands out a list of weights from front to back.
pub struct Weights<'a, S> {
    /// The whole list.
    pub data: &'a [S],
    /// How many weights have been handed out.
    pub pos: usize,
}

/// The complaint of a model that needs more weights than there are.
pub open spec fn underflow_text(len: nat) -> Seq<char> {
    "weight underflow: model expects more than "@ + decimal(len) + " weights"@
}

/// The complaint of a model that leaves weights unread.
pub open spec fn mismatch_text(pos: nat, len: nat) -> Seq<char> {
    "weight mismatch: consumed "@ + decimal(pos) + " of "@ + decimal(len) + " weights"@
}

impl<'a, S: Scalar> Weights<'a, S> {
    /// The reader has not run past the end.
    pub open spec fn wf(&self) -> bool {
        self.pos <= self.data@.len()
    }

    /// A reader at the front of a list.
    pub fn new(data: &'a [S]) -> (r: Self)
        ensures
            r.wf(),
            r.data == data,
            r.pos == 0,
    {
        Weights { data, pos: 0 }
    }

    /// The next weight, or a complaint when none is left.
    pub fn next(&mut self) -> (r: Result<S, String>)
        requires
            old(self).wf(),
        ensures
            final(self).wf(),
            final(self).data == old(self).data,
            old(self).pos < old(self).data@.len() ==> {
                &&& r == Ok::<S, String>(old(self).data@[old(self).pos as int])
                &&& final(self).pos == old(self).pos + 1
            },
            old(self).pos == old(self).data@.len() ==> {
                &&& r matches Err(e) && e@ == underflow_text(old(self).data@.len())
                &&& final(self).pos == old(self).pos
            },
    {
        if self.pos < self.data.len() {
            let v = self.data[self.pos];
            self.pos = self.pos + 1;
            Ok(v)
        } else {
            Err(
                with_number(
                    "weight underflow: model expects more than ",
                    self.data.len(),
                    " weights",
                ),
            )
        }
    }

    /// Succeeds when every weight has been handed out.
    pub fn finish(&self) -> (r: Result<(), String>)
        requires
            self.wf(),
        ensures
            r is Ok <==> self.pos == self.data@.len(),
            r matches Err(e) ==> e@ == mismatch_text(self.pos as nat, self.data@.len()),
    {
        if self.pos != self.data.len() {
            let mut e = with_number("weight mismatch: consumed ", self.pos, " of ");
            push_decimal(&mut e, self.data.len());
            e.append(" weights");
            return Err(e);
        }
        Ok(())
    }
}

// Sums of products ===========================================================

/// `start` plus the first `n` products of a weight row with a frame, summed
/// from the first channel on.
pub open spec fn mac<S: Scalar>(start: S, row: Seq<S>, x: Seq<S>, n: nat) -> S
    decreases n,
{
    if n == 0 {
        start
    } else {
        mac(start, row, x, (n - 1) as nat).add_spec(row[n - 1].mul_spec(x[n - 1]))
    }
}

/// Row `o` of a matrix that is stored by columns.
pub open spec fn matrix_row<S>(w: Seq<Seq<S>>, o: int) -> Seq<S> {
    Seq::new(w.len(), |i: int| w[i][o])
}

/// The rows of a matrix that is stored by columns.
pub open spec fn matrix_rows<S>(w: Seq<Seq<S>>, rows: nat) -> Seq<Seq<S>> {
    Seq::new(rows, |o: int| matrix_row(w, o))
}

pub fn mac_row<S: Scalar>(w: &Mat<S>, o: usize, x: &[S], start: S) -> (r: S)
    requires
        lawful::<S>(),
        w.wf(),
        o < w.rows,
        w.cols <= x@.len(),
    ensures
        r == mac(start, matrix_row(w@, o as int), x@, w.cols as nat),
{
    let mut acc = start;
    let mut i: usize = 0;
    while i < w.cols
        invariant
            lawful::<S>(),
            w.wf(),
            o < w.rows,
            i <= w.cols <= x@.len(),
            acc == mac(start, matrix_row(w@, o as int), x@, i as nat),
        decreases w.cols - i,
    {
        acc = acc.add(w.get(o, i).mul(x[i]));
        i += 1;
    }
    acc
}

// Weight layout ==============================================================

/// The weight that connects input `i` to output `o` at tap `k`.
///
/// The list holds, for each output in turn, the inputs of the output's own
/// group, and for each of those the taps; inputs of other groups do not
/// contribute.
pub open spec fn listed_weight<S: Scalar>(
    data: Seq<S>,
    pos: int,
    out_per_group: int,
    in_per_group: int,
    taps: int,
    o: int,
    i: int,
    k: int,
) -> S {
    if same_group(out_per_group, in_per_group, o, i) {
        data[pos + (o * in_per_group + i % in_per_group) * taps + k]
    } else {
        S::zero_spec()
    }
}

/// Input `i` and output `o` belong to the same group.
pub open spec fn same_group(out_per_group: int, in_per_group: int, o: int, i: int) -> bool {
    o / out_per_group == i / in_per_group
}

/// The channel counts divide evenly into groups.
pub open spec fn groups_divide(inputs: nat, outputs: nat, groups: nat) -> bool {
    groups != 0 && inputs % groups == 0 && outputs % groups == 0
}

/// The complaint about channel counts that do not divide into groups.
pub open spec fn groups_text(kind: Seq<char>, inputs: nat, outputs: nat, groups: nat) -> Seq<char> {
    kind + decimal(inputs) + " in / "@ + decimal(outputs) + " out) must divide evenly by groups ("@
        + decimal(groups) + ")"@
}

/// Complain about channel counts that do not divide into groups.
pub fn groups_message(kind: &str, inputs: usize, outputs: usize, groups: usize) -> (r: String)
    ensures
        r@ == groups_text(kind@, inputs as nat, outputs as nat, groups as nat),
{
    let mut r = with_number(kind, inputs, " in / ");
    push_decimal(&mut r, outputs);
    r.append(" out) must divide evenly by groups (");
    push_decimal(&mut r, groups);
    r.append(")");
    r
}

/// The complaint about a matrix that cannot be addressed.
pub open spec fn oversize_text() -> Seq<char> {
    "model dimensions are too large"@
}

/// Say that a matrix cannot be addressed.
pub fn oversize_message() -> (r: String)
    ensures
        r@ == oversize_text(),
{
    "model dimensions are too large".to_owned()
}

/// Whether a product can be addressed.
pub fn product_fits(a: usize, b: usize) -> (r: bool)
    ensures
        r == (a * b <= usize::MAX),
{
    a.checked_mul(b).is_some()
}

// Conv1x1 ====================================================================

/// A pointwise convolution as a mathematical map.
pub struct Affine<S> {
    /// Channels read.
    pub inputs: nat,
    /// Channels written.
    pub outputs: nat,
    /// One row of input weights per output.
    pub weight: Seq<Seq<S>>,
    /// What each output starts from.
    pub offset: Seq<S>,
}

/// What a pointwise convolution makes of one frame.
pub open spec fn affine<S: Scalar>(m: Affine<S>, x: Seq<S>) -> Seq<S> {
    Seq::new(m.outputs, |o: int| mac(m.offset[o], m.weight[o], x, m.inputs))
}

/// What a pointwise convolution makes of the first `n` frames of a signal.
pub open spec fn affine_block<S: Scalar>(m: Affine<S>, x: Seq<Seq<S>>, n: nat) -> Seq<Seq<S>> {
    Seq::new(n, |f: int| affine(m, x[f]))
}

/// Why there is no pointwise convolution of these channels, where there is
/// none.
pub open spec fn affine_error(inputs: nat, outputs: nat, groups: nat) -> Option<Seq<char>> {
    if !groups_divide(inputs, outputs, groups) {
        Some(groups_text("Conv1x1: channels ("@, inputs, outputs, groups))
    } else if inputs * outputs > usize::MAX {
        Some(oversize_text())
    } else {
        None
    }
}

/// How many weights a pointwise convolution reads.
pub open spec fn affine_count(inputs: nat, outputs: nat, bias: bool, groups: nat) -> nat {
    outputs * (inputs / groups) + if bias {
        outputs
    } else {
        0
    }
}

/// The pointwise convolution that the weights from `pos` on describe.
pub open spec fn affine_from<S: Scalar>(
    data: Seq<S>,
    pos: int,
    inputs: nat,
    outputs: nat,
    bias: bool,
    groups: nat,
) -> Affine<S> {
    let opg = (outputs / groups) as int;
    let ipg = (inputs / groups) as int;
    Affine {
        inputs,
        outputs,
        weight: Seq::new(
            outputs,
            |o: int| Seq::new(inputs, |i: int| listed_weight(data, pos, opg, ipg, 1, o, i, 0)),
        ),
        offset: if bias {
            Seq::new(outputs, |o: int| data[pos + outputs * ipg + o])
        } else {
            zeros::<S>(outputs)
        },
    }
}

/// A pointwise convolution with its output buffer.
pub struct Conv1x1<S> {
    /// Outputs by inputs, block-diagonal when grouped.
    pub weight: Mat<S>,
    /// Empty when there is no bias.
    pub bias: Vec<S>,
    /// Whether there is a bias.
    pub biased: bool,
    /// Number of groups.
    pub groups: usize,
    /// Channels read.
    pub in_ch: usize,
    /// Channels written.
    pub out_ch: usize,
    /// The frames computed last.
    pub out: Mat<S>,
}

impl<S: Scalar> Conv1x1<S> {
    /// Outputs per group.
    pub open spec fn opg(&self) -> int {
        self.out_ch as int / self.groups as int
    }

    /// Inputs per group.
    pub open spec fn ipg(&self) -> int {
        self.in_ch as int / self.groups as int
    }

    /// The shapes agree and no weight crosses a group.
    pub open spec fn wf(&self) -> bool {
        &&& groups_divide(self.in_ch as nat, self.out_ch as nat, self.groups as nat)
        &&& self.weight.shaped(self.out_ch as nat, self.in_ch as nat)
        &&& self.bias@.len() == if self.biased { self.out_ch as nat } else { 0 }
        &&& self.out.wf()
        &&& self.out.rows == self.out_ch
        &&& forall|i: int, o: int|
            0 <= i < self.in_ch && 0 <= o < self.out_ch && !same_group(self.opg(), self.ipg(), o, i)
                ==> #[trigger] self.weight@[i][o] == S::zero_spec()
    }

    /// The output buffer has room for this many frames.
    pub open spec fn sized(&self, max_frames: nat) -> bool {
        self.out.shaped(self.out_ch as nat, max_frames)
    }

    /// The map that this convolution computes.
    pub open spec fn model(&self) -> Affine<S> {
        Affine {
            inputs: self.in_ch as nat,
            outputs: self.out_ch as nat,
            weight: matrix_rows(self.weight@, self.out_ch as nat),
            offset: if self.biased {
                self.bias@
            } else {
                zeros::<S>(self.out_ch as nat)
            },
        }
    }

    /// How many weights this convolution reads.
    pub open spec fn count(&self) -> nat {
        affine_count(self.in_ch as nat, self.out_ch as nat, self.biased, self.groups as nat)
    }

    /// A convolution without weights and without room for frames.
    pub fn new(in_channels: usize, out_channels: usize, bias: bool, groups: usize) -> (r: Result<
        Self,
        String,
    >)
        requires
            lawful::<S>(),
        ensures
            match r {
                Ok(c) => {
                    &&& affine_error(in_channels as nat, out_channels as nat, groups as nat) is None
                    &&& c.wf()
                    &&& c.in_ch == in_channels
                    &&& c.out_ch == out_channels
                    &&& c.biased == bias
                    &&& c.groups == groups
                    &&& c.sized(0)
                },
                Err(e) => affine_error(in_channels as nat, out_channels as nat, groups as nat)
                    == Some(e@),
            },
    {
        if groups == 0 || in_channels % groups != 0 || out_channels % groups != 0 {
            return Err(groups_message("Conv1x1: channels (", in_channels, out_channels, groups));
        }
        if !product_fits(in_channels, out_channels) {
            return Err(oversize_message());
        }
        let weight: Mat<S> = Mat::new(out_channels, in_channels);
        let bias_values = bias_zeros(bias, out_channels);
        let out: Mat<S> = Mat::new(out_channels, 0);
        Ok(
            Conv1x1 {
                weight,
                bias: bias_values,
                biased: bias,
                groups,
                in_ch: in_channels,
                out_ch: out_channels,
                out,
            },
        )
    }

    /// Take the weights from a list: for each output the inputs of its group,
    /// then the bias.
    pub fn set_weights(&mut self, w: &mut Weights<S>) -> (r: Result<(), String>)
        requires
            lawful::<S>(),
            old(self).wf(),
            old(w).wf(),
        ensures
            final(self).wf(),
            final(self).in_ch == old(self).in_ch,
            final(self).out_ch == old(self).out_ch,
            final(self).biased == old(self).biased,
            final(self).groups == old(self).groups,
            final(self).out == old(self).out,
            final(w).wf(),
            final(w).data == old(w).data,
            r is Ok <==> old(w).pos + old(self).count() <= old(w).data@.len(),
            r is Ok ==> {
                &&& final(w).pos == old(w).pos + old(self).count()
                &&& final(self).model() == affine_from(
                    old(w).data@,
                    old(w).pos as int,
                    old(self).in_ch as nat,
                    old(self).out_ch as nat,
                    old(self).biased,
                    old(self).groups as nat,
                )
            },
            r matches Err(e) ==> {
                &&& e@ == underflow_text(old(w).data@.len())
                &&& final(w).pos == old(w).data@.len()
            },
    {
        let out_per_group = self.out_ch / self.groups;
        let in_per_group = self.in_ch / self.groups;
        let ghost data = w.data@;
        let ghost pos0 = w.pos as int;
        let ghost first = *self;
        let ghost outputs = self.out_ch as nat;
        let mut o: usize = 0;
        proof {
            lemma_mul_basics(in_per_group as int);
        }
        while o < self.out_ch
            invariant
                lawful::<S>(),
                self.wf(),
                first == *old(self),
                self.out_ch == first.out_ch,
                self.in_ch == first.in_ch,
                self.biased == first.biased,
                self.groups == first.groups,
                self.bias == first.bias,
                self.out == first.out,
                out_per_group == self.opg(),
                in_per_group == self.ipg(),
                w.wf(),
                w.data == old(w).data,
                data == w.data@,
                pos0 == old(w).pos,
                o <= self.out_ch,
                w.pos == pos0 + o * in_per_group,
                forall|i: int, q: int|
                    0 <= i < self.in_ch && 0 <= q < o ==> #[trigger] self.weight@[i][q]
                        == listed_weight(
                        data,
                        pos0,
                        self.opg(),
                        self.ipg(),
                        1,
                        q,
                        i,
                        0,
                    ),
            decreases self.out_ch - o,
        {
            let mut j: usize = 0;
            proof {
                lemma_group_of(self.out_ch as int, self.groups as int, o as int);
                lemma_mul_inequality(o as int, o + 1, in_per_group as int);
                assert forall|i: int, q: int|
                    0 <= i < self.in_ch && (0 <= q < o || q == o && i % self.ipg()
                        < 0) implies #[trigger] self.weight@[i][q] == listed_weight(
                    data,
                    pos0,
                    self.opg(),
                    self.ipg(),
                    1,
                    q,
                    i,
                    0,
                ) by {
                    lemma_group_slot(self.in_ch as int, self.groups as int, i);
                }
            }
            let g: usize = o / out_per_group;
            while j < in_per_group
                invariant
                    lawful::<S>(),
                    self.wf(),
                    first == *old(self),
                    self.out_ch == first.out_ch,
                    self.in_ch == first.in_ch,
                    self.biased == first.biased,
                    self.groups == first.groups,
                    self.bias == first.bias,
                    self.out == first.out,
                    out_per_group == self.opg(),
                    in_per_group == self.ipg(),
                    w.wf(),
                    w.data == old(w).data,
                    data == w.data@,
                    pos0 == old(w).pos,
                    o < self.out_ch,
                    g == o as int / self.opg(),
                    g < self.groups,
                    j <= in_per_group,
                    w.pos == pos0 + o * in_per_group + j,
                    forall|i: int, q: int|
                        0 <= i < self.in_ch && (0 <= q < o || q == o && i % self.ipg() < j)
                            ==> #[trigger] self.weight@[i][q] == listed_weight(
                            data,
                            pos0,
                            self.opg(),
                            self.ipg(),
                            1,
                            q,
                            i,
                            0,
                        ),
                decreases in_per_group - j,
            {
                proof {
                    lemma_group_member(self.in_ch as int, self.groups as int, g as int, j as int);
                    lemma_rest_underflow(
                        o as int,
                        j as int,
                        self.out_ch as int,
                        in_per_group as int,
                    );
                }
                let v = match w.next() {
                    Ok(v) => v,
                    Err(e) => {
                        return Err(e);
                    },
                };
                let ghost before = *self;
                self.weight.set(o, g * in_per_group + j, v);
                proof {
                    let c = g * in_per_group + j;
                    assert forall|i: int, q: int|
                        0 <= i < self.in_ch && (0 <= q < o || q == o && i % self.ipg() < j
                            + 1) implies #[trigger] self.weight@[i][q] == listed_weight(
                        data,
                        pos0,
                        self.opg(),
                        self.ipg(),
                        1,
                        q,
                        i,
                        0,
                    ) by {
                        lemma_group_slot(
                            self.in_ch as int,
                            self.groups as int,
                            i,
                        );
                        if q == o && i == c {
                        } else {
                            assert(self.weight@[i][q] == before.weight@[i][q]);
                            if q == o && i % self.ipg() == j {
                                // Another group: the slot is not written.
                                assert(!same_group(self.opg(), self.ipg(), q, i)) by {
                                    lemma_mul_is_commutative(i / self.ipg(), self.ipg());
                                }
                            }
                        }
                    }
                    assert forall|i: int, q: int|
                        0 <= i < self.in_ch && 0 <= q < self.out_ch && !same_group(
                            self.opg(),
                            self.ipg(),
                            q,
                            i,
                        ) implies #[trigger] self.weight@[i][q] == S::zero_spec() by {
                        if q == o && i == c {
                        } else {
                            assert(self.weight@[i][q] == before.weight@[i][q]);
                        }
                    }
                }
                j += 1;
            }
            proof {
                lemma_mul_is_distributive_add_other_way(in_per_group as int, o as int, 1);
                assert forall|i: int, q: int|
                    0 <= i < self.in_ch && 0 <= q < o + 1 implies #[trigger] self.weight@[i][q]
                    == listed_weight(data, pos0, self.opg(), self.ipg(), 1, q, i, 0) by {
                    lemma_group_slot(self.in_ch as int, self.groups as int, i);
                }
            }
            o += 1;
        }
        let ghost loaded = *self;
        let mut b: usize = 0;
        while b < self.bias.len()
            invariant
                self.wf(),
                first == *old(self),
                self.weight == loaded.weight,
                self.out_ch == first.out_ch,
                self.in_ch == first.in_ch,
                self.biased == first.biased,
                self.groups == first.groups,
                self.out == first.out,
                in_per_group == self.ipg(),
                w.wf(),
                w.data == old(w).data,
                data == w.data@,
                pos0 == old(w).pos,
                b <= self.bias@.len(),
                w.pos == pos0 + self.out_ch * in_per_group + b,
                forall|q: int|
                    0 <= q < b ==> #[trigger] self.bias@[q] == data[pos0 + self.out_ch
                        * in_per_group + q],
            decreases self.bias@.len() - b,
        {
            let v = match w.next() {
                Ok(v) => v,
                Err(e) => {
                    return Err(e);
                },
            };
            self.bias.set(b, v);
            b += 1;
        }
        proof {
            let want = affine_from(
                data,
                pos0,
                self.in_ch as nat,
                self.out_ch as nat,
                self.biased,
                self.groups as nat,
            );
            let got = self.model();
            assert forall|q: int| 0 <= q < self.out_ch implies #[trigger] got.weight[q]
                == want.weight[q] by {
                assert(got.weight[q] =~= want.weight[q]);
            }
            assert(got.weight =~= want.weight);
            assert(got.offset =~= want.offset);
        }
        Ok(())
    }

    /// Make room for blocks of up to `max_frames` frames.
    pub fn set_max_buffer_size(&mut self, max_frames: usize)
        requires
            lawful::<S>(),
            old(self).wf(),
            max_frames * old(self).out_ch <= usize::MAX,
        ensures
            final(self).wf(),
            final(self).sized(max_frames as nat),
            final(self).model() == old(self).model(),
            final(self).out@ == silence::<S>(old(self).out_ch as nat, max_frames as nat),
            *final(self) == (Conv1x1 { out: final(self).out, ..*old(self) }),
    {
        self.out.reset(self.out_ch, max_frames);
    }

    /// Map the top channels of each of the first `num_frames` frames.
    pub fn process(&mut self, input: &Mat<S>, num_frames: usize)
        requires
            lawful::<S>(),
            old(self).wf(),
            input.wf(),
            old(self).in_ch <= input.rows,
            num_frames <= input.cols,
            num_frames <= old(self).out.cols,
        ensures
            final(self).wf(),
            final(self).model() == old(self).model(),
            *final(self) == (Conv1x1 { out: final(self).out, ..*old(self) }),
            final(self).out.cols == old(self).out.cols,
            final(self).out@ == overlay(
                old(self).out@,
                affine_block(old(self).model(), input@, num_frames as nat),
            ),
    {
        let ghost m = self.model();
        let ghost first = self.out@;
        let mut f: usize = 0;
        assert(self.out@ =~= overlay(first, affine_block(m, input@, 0)));
        while f < num_frames
            invariant
                lawful::<S>(),
                self.wf(),
                input.wf(),
                self.in_ch <= input.rows,
                f <= num_frames <= input.cols,
                num_frames <= self.out.cols,
                *self == (Conv1x1 { out: self.out, ..*old(self) }),
                m == self.model(),
                first == old(self).out@,
                self.out.cols == old(self).out.cols,
                self.out@ == overlay(first, affine_block(m, input@, f as nat)),
            decreases num_frames - f,
        {
            let x = input.col(f);
            let mut o: usize = 0;
            let ghost before = self.out@;
            while o < self.out_ch
                invariant
                    lawful::<S>(),
                    self.wf(),
                    x@ == input@[f as int],
                    self.in_ch <= x@.len(),
                    o <= self.out_ch,
                    f < self.out.cols,
                    *self == (Conv1x1 { out: self.out, ..*old(self) }),
                    m == self.model(),
                    self.out.cols == old(self).out.cols,
                    before.len() == self.out.cols,
                    self.out@.len() == before.len(),
                    forall|c: int|
                        0 <= c < before.len() && c != f ==> #[trigger] self.out@[c] == before[c],
                    self.out@[f as int].len() == self.out_ch,
                    forall|q: int|
                        0 <= q < o ==> #[trigger] self.out@[f as int][q] == affine(m, x@)[q],
                decreases self.out_ch - o,
            {
                let start = if self.biased {
                    self.bias[o]
                } else {
                    S::zero()
                };
                let v = mac_row(&self.weight, o, x, start);
                self.out.set(o, f, v);
                o += 1;
            }
            f += 1;
            proof {
                assert(self.out@[f - 1] =~= affine(m, x@));
                assert(self.out@ =~= overlay(first, affine_block(m, input@, f as nat)));
            }
        }
    }
}

/// The buffer of a bias: empty when there is none.
pub fn bias_zeros<S: Scalar>(bias: bool, n: usize) -> (r: Vec<S>)
    requires
        lawful::<S>(),
    ensures
        r@ == zeros::<S>(if bias { n as nat } else { 0 }),
{
    let mut r: Vec<S> = Vec::new();
    let count = if bias { n } else { 0 };
    let mut i: usize = 0;
    assert(r@ =~= zeros::<S>(0));
    while i < count
        invariant
            lawful::<S>(),
            i <= count,
            r@ == zeros::<S>(i as nat),
        decreases count - i,
    {
        r.push(S::zero());
        i += 1;
        assert(r@ =~= zeros::<S>(i as nat));
    }
    r
}

/// The group of an output exists.
pub proof fn lemma_group_of(channels: int, groups: int, o: int)
    requires
        groups > 0,
        channels % groups == 0,
        0 <= o < channels,
    ensures
        channels / groups > 0,
        0 <= o / (channels / groups) < groups,
{
    let per = channels / groups;
    vstd::arithmetic::div_mod::lemma_fundamental_div_mod(channels, groups);
    assert(per > 0) by (nonlinear_arith)
        requires
            channels == groups * per,
            channels > 0,
            groups > 0,
    ;
    lemma_mul_is_commutative(groups, per);
    vstd::arithmetic::div_mod::lemma_multiply_divide_lt(o, per, groups);
    vstd::arithmetic::div_mod::lemma_div_pos_is_pos(o, per);
}

/// Member `j` of group `g` is an input, and it is found again in that group.
pub proof fn lemma_group_member(channels: int, groups: int, g: int, j: int)
    requires
        groups > 0,
        channels % groups == 0,
        0 <= g < groups,
        0 <= j < channels / groups,
    ensures
        0 <= g * (channels / groups) + j < channels,
        g * (channels / groups) <= channels,
        (g * (channels / groups) + j) / (channels / groups) == g,
        (g * (channels / groups) + j) % (channels / groups) == j,
{
    let per = channels / groups;
    vstd::arithmetic::div_mod::lemma_fundamental_div_mod(channels, groups);
    lemma_mul_is_commutative(groups, per);
    lemma_cell(per, groups, g, j);
}

/// Every input has a place in its group.
pub proof fn lemma_group_slot(channels: int, groups: int, i: int)
    requires
        groups > 0,
        channels % groups == 0,
        0 <= i < channels,
    ensures
        channels / groups > 0,
        0 <= i % (channels / groups) < channels / groups,
        i == (i / (channels / groups)) * (channels / groups) + i % (channels / groups),
{
    lemma_group_of(channels, groups, i);
    let per = channels / groups;
    vstd::arithmetic::div_mod::lemma_fundamental_div_mod(i, per);
    lemma_mul_is_commutative(per, i / per);
    vstd::arithmetic::div_mod::lemma_mod_bound(i, per);
}

/// Inside the list of output rows something is still to come.
pub proof fn lemma_rest_underflow(o: int, j: int, outputs: int, per: int)
    requires
        0 <= o < outputs,
        0 <= j < per,
    ensures
        o * per + j < outputs * per,
{
    lemma_cell(per, outputs, o, j);
}

} // verus!
