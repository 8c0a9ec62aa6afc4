//! A recurrent network of long short-term memory cells.

use crate::json::{Json, Tree};
use crate::num::{lawful, zeros, Sample, Scalar};
use crate::pure::activations::{sigmoid, sigmoid_spec};
use crate::pure::mat::{lemma_cell, unflatten};
use crate::pure::nn::{
    mac, mismatch_text, overlay, oversize_message, oversize_text, product_fits, underflow_text,
    Weights,
};
use crate::pure::wavenet::mono;
use crate::text::glue;
use vstd::arithmetic::mul::*;
use vstd::prelude::*;
use vstd::string::*;

verus! {

// Cells ======================================================================

/// A cell as a mathematical map.
pub struct CellModel<S> {
    /// Numbers read.
    pub inputs: nat,
    /// Numbers remembered and shown.
    pub hidden: nat,
    /// One row of weights per gate and hidden number: input, forget, candidate
    /// and output gates; each row holds the inputs, then the hidden numbers.
    pub weight: Seq<Seq<S>>,
    /// What is added to each row.
    pub bias: Seq<S>,
    /// The hidden numbers at the start.
    pub h0: Seq<S>,
    /// The memory at the start.
    pub c0: Seq<S>,
}

/// What a cell remembers.
#[verifier::ext_equal]
pub struct CellState<S> {
    /// The hidden numbers.
    pub h: Seq<S>,
    /// The memory.
    pub c: Seq<S>,
}

/// What row `r` makes of an input and the hidden numbers.
pub open spec fn gate<S: Scalar>(m: CellModel<S>, xh: Seq<S>, r: int) -> S {
    mac(S::zero_spec(), m.weight[r], xh, m.inputs + m.hidden).add_spec(m.bias[r])
}

/// The next memory of hidden number `i`.
pub open spec fn next_memory<S: Scalar>(m: CellModel<S>, xh: Seq<S>, c: Seq<S>, i: int) -> S {
    sigmoid_spec(gate(m, xh, m.hidden + i)).mul_spec(c[i]).add_spec(
        sigmoid_spec(gate(m, xh, i)).mul_spec(gate(m, xh, 2 * m.hidden + i).tanh_spec()),
    )
}

/// What a cell remembers after an input.
pub open spec fn cell_step<S: Scalar>(m: CellModel<S>, st: CellState<S>, x: Seq<S>) -> CellState<
    S,
> {
    let xh = x + st.h;
    let c = Seq::new(m.hidden, |i: int| next_memory(m, xh, st.c, i));
    CellState {
        h: Seq::new(
            m.hidden,
            |i: int| sigmoid_spec(gate(m, xh, 3 * m.hidden + i)).mul_spec(c[i].tanh_spec()),
        ),
        c,
    }
}

/// A cell that has heard nothing.
pub open spec fn cell_rest<S>(m: CellModel<S>) -> CellState<S> {
    CellState { h: m.h0, c: m.c0 }
}

/// How many weights a cell reads.
pub open spec fn cell_count(inputs: nat, hidden: nat) -> nat {
    (4 * hidden) * (inputs + hidden) + 4 * hidden + hidden + hidden
}

/// The cell that the weights from `pos` on describe.
pub open spec fn cell_from<S>(data: Seq<S>, pos: int, inputs: nat, hidden: nat) -> CellModel<S> {
    let rows = 4 * hidden;
    let cols = inputs + hidden;
    let b = pos + rows * cols;
    CellModel {
        inputs,
        hidden,
        weight: unflatten(data.subrange(pos, b), cols, rows),
        bias: data.subrange(b, b + rows),
        h0: data.subrange(b + rows, b + rows + hidden),
        c0: data.subrange(b + rows + hidden, b + rows + hidden + hidden),
    }
}

/// The weights of a cell can be addressed.
pub open spec fn cell_fits(inputs: nat, hidden: nat) -> bool {
    &&& 4 * hidden <= usize::MAX
    &&& inputs + hidden <= usize::MAX
    &&& (4 * hidden) * (inputs + hidden) <= usize::MAX
}

/// Take `n` weights from a list.
fn take_weights<S: Scalar>(w: &mut Weights<S>, n: usize) -> (r: Result<Vec<S>, String>)
    requires
        old(w).wf(),
    ensures
        final(w).wf(),
        final(w).data == old(w).data,
        r is Ok <==> old(w).pos + n <= old(w).data@.len(),
        r matches Ok(v) ==> {
            &&& final(w).pos == old(w).pos + n
            &&& v@ == old(w).data@.subrange(old(w).pos as int, old(w).pos + n)
        },
        r matches Err(e) ==> e@ == underflow_text(old(w).data@.len()),
{
    let ghost pos = w.pos as int;
    let ghost data = w.data@;
    let mut out: Vec<S> = Vec::new();
    let mut i: usize = 0;
    while i < n
        invariant
            i <= n,
            w.wf(),
            w.data == old(w).data,
            data == w.data@,
            pos == old(w).pos,
            w.pos == pos + i,
            out@ == data.subrange(pos, pos + i),
        decreases n - i,
    {
        match w.next() {
            Ok(v) => out.push(v),
            Err(e) => {
                return Err(e);
            },
        }
        i += 1;
        assert(out@ =~= data.subrange(pos, pos + i));
    }
    Ok(out)
}

fn zero_list<S: Scalar>(n: usize) -> (r: Vec<S>)
    requires
        lawful::<S>(),
    ensures
        r@ == zeros::<S>(n as nat),
{
    let mut out: Vec<S> = Vec::new();
    let mut i: usize = 0;
    while i < n
        invariant
            lawful::<S>(),
            i <= n,
            out@ == zeros::<S>(i as nat),
        decreases n - i,
    {
        out.push(S::zero());
        i += 1;
        assert(out@ =~= zeros::<S>(i as nat));
    }
    out
}

/// A cell with its state.
pub struct LstmCell<S> {
    /// The rows of weights, one after the other.
    pub w: Vec<S>,
    /// What is added to each row.
    pub b: Vec<S>,
    /// The input, followed by the hidden numbers.
    pub xh: Vec<S>,
    /// The values of the gates.
    pub ifgo: Vec<S>,
    /// The memory.
    pub c: Vec<S>,
    /// Numbers read.
    pub input_size: usize,
    /// Numbers remembered and shown.
    pub hidden_size: usize,
    /// The hidden numbers at the start.
    pub h0: Vec<S>,
    /// The memory at the start.
    pub c0: Vec<S>,
}

impl<S: Scalar> LstmCell<S> {
    /// The sizes agree.
    pub open spec fn wf(&self) -> bool {
        &&& cell_fits(self.input_size as nat, self.hidden_size as nat)
        &&& self.w@.len() == (4 * self.hidden_size) * (self.input_size + self.hidden_size)
        &&& self.b@.len() == 4 * self.hidden_size
        &&& self.xh@.len() == self.input_size + self.hidden_size
        &&& self.ifgo@.len() == 4 * self.hidden_size
        &&& self.c@.len() == self.hidden_size
        &&& self.h0@.len() == self.hidden_size
        &&& self.c0@.len() == self.hidden_size
    }

    /// The map that this cell computes.
    pub open spec fn model(&self) -> CellModel<S> {
        CellModel {
            inputs: self.input_size as nat,
            hidden: self.hidden_size as nat,
            weight: unflatten(
                self.w@,
                (self.input_size + self.hidden_size) as nat,
                (4 * self.hidden_size) as nat,
            ),
            bias: self.b@,
            h0: self.h0@,
            c0: self.c0@,
        }
    }

    /// What this cell remembers.
    pub open spec fn state(&self) -> CellState<S> {
        CellState { h: self.xh@.skip(self.input_size as int), c: self.c@ }
    }

    /// Make a cell with weights from a list.
    pub fn new(input_size: usize, hidden_size: usize, w: &mut Weights<S>) -> (r: Result<
        Self,
        String,
    >)
        requires
            lawful::<S>(),
            old(w).wf(),
        ensures
            final(w).wf(),
            final(w).data == old(w).data,
            ({
                let fits = cell_fits(input_size as nat, hidden_size as nat);
                let end = old(w).pos + cell_count(input_size as nat, hidden_size as nat);
                match r {
                    Ok(c) => {
                        &&& fits
                        &&& end <= old(w).data@.len()
                        &&& final(w).pos == end
                        &&& c.wf()
                        &&& c.input_size == input_size
                        &&& c.hidden_size == hidden_size
                        &&& c.model() == cell_from(
                            old(w).data@,
                            old(w).pos as int,
                            input_size as nat,
                            hidden_size as nat,
                        )
                        &&& c.state() == cell_rest(c.model())
                    },
                    Err(e) => if !fits {
                        e@ == oversize_text()
                    } else {
                        &&& end > old(w).data@.len()
                        &&& e@ == underflow_text(old(w).data@.len())
                    },
                }
            }),
    {
        if !product_fits(4, hidden_size) || input_size > usize::MAX - hidden_size || !product_fits(
            4 * hidden_size,
            input_size + hidden_size,
        ) {
            return Err(oversize_message());
        }
        let rows = 4 * hidden_size;
        let cols = input_size + hidden_size;
        proof {
            lemma_mul_nonnegative(rows as int, cols as int);
        }
        let weight = match take_weights(w, rows * cols) {
            Ok(v) => v,
            Err(e) => {
                return Err(e);
            },
        };
        let b = match take_weights(w, rows) {
            Ok(v) => v,
            Err(e) => {
                return Err(e);
            },
        };
        let h0 = match take_weights(w, hidden_size) {
            Ok(v) => v,
            Err(e) => {
                return Err(e);
            },
        };
        let c0 = match take_weights(w, hidden_size) {
            Ok(v) => v,
            Err(e) => {
                return Err(e);
            },
        };
        let mut xh: Vec<S> = zero_list(cols);
        write_at(&mut xh, input_size, &h0);
        let mut c: Vec<S> = zero_list(hidden_size);
        write_at(&mut c, 0, &c0);
        let r = LstmCell {
            w: weight,
            b,
            xh,
            ifgo: zero_list(rows),
            c,
            input_size,
            hidden_size,
            h0,
            c0,
        };
        assert(r.state().h =~= h0@);
        assert(r.state().c =~= c0@);
        Ok(r)
    }

    /// Forget everything heard.
    pub fn reset_state(&mut self)
        requires
            old(self).wf(),
        ensures
            final(self).wf(),
            final(self).model() == old(self).model(),
            final(self).input_size == old(self).input_size,
            final(self).hidden_size == old(self).hidden_size,
            final(self).state() == cell_rest(old(self).model()),
    {
        write_at(&mut self.xh, self.input_size, &self.h0);
        write_at(&mut self.c, 0, &self.c0);
        assert(self.state().h =~= self.h0@);
        assert(self.state().c =~= self.c0@);
    }

    /// Let the cell hear an input.
    pub fn process(&mut self, x: &[S])
        requires
            lawful::<S>(),
            old(self).wf(),
            x@.len() == old(self).input_size,
        ensures
            final(self).wf(),
            final(self).model() == old(self).model(),
            final(self).input_size == old(self).input_size,
            final(self).hidden_size == old(self).hidden_size,
            final(self).state() == cell_step(old(self).model(), old(self).state(), x@),
    {
        let ghost m = self.model();
        let ghost st = self.state();
        let ghost xh = x@ + st.h;
        let h = self.hidden_size;
        let cols = self.input_size + h;
        let mut k: usize = 0;
        while k < self.input_size
            invariant
                self.wf(),
                *self == (LstmCell { xh: self.xh, ..*old(self) }),
                x@.len() == self.input_size,
                k <= self.input_size,
                forall|q: int|
                    0 <= q < self.xh@.len() ==> #[trigger] self.xh@[q] == if q < k {
                        x@[q]
                    } else {
                        old(self).xh@[q]
                    },
            decreases self.input_size - k,
        {
            self.xh.set(k, x[k]);
            k += 1;
        }
        assert(self.xh@ =~= xh);
        let mut r: usize = 0;
        while r < 4 * h
            invariant
                lawful::<S>(),
                self.wf(),
                *self == (LstmCell { xh: self.xh, ifgo: self.ifgo, ..*old(self) }),
                self.model() == m,
                h == self.hidden_size,
                cols == self.input_size + h,
                self.xh@ == xh,
                r <= 4 * h,
                forall|q: int| 0 <= q < r ==> #[trigger] self.ifgo@[q] == gate(m, xh, q),
            decreases 4 * h - r,
        {
            let sum = self.row_sum(r);
            self.ifgo.set(r, sum.add(self.b[r]));
            r += 1;
        }
        let mut i: usize = 0;
        while i < h
            invariant
                lawful::<S>(),
                self.wf(),
                *self == (LstmCell { xh: self.xh, ifgo: self.ifgo, c: self.c, ..*old(self) }),
                self.model() == m,
                st == old(self).state(),
                h == self.hidden_size,
                self.xh@ == xh,
                i <= h,
                forall|q: int| 0 <= q < 4 * h ==> #[trigger] self.ifgo@[q] == gate(m, xh, q),
                forall|q: int|
                    0 <= q < h ==> #[trigger] self.c@[q] == if q < i {
                        next_memory(m, xh, st.c, q)
                    } else {
                        st.c[q]
                    },
            decreases h - i,
        {
            let f = sigmoid(self.ifgo[h + i]);
            let a = sigmoid(self.ifgo[i]);
            let g = self.ifgo[2 * h + i].tanh();
            let v = f.mul(self.c[i]).add(a.mul(g));
            self.c.set(i, v);
            i += 1;
        }
        let ghost next = cell_step(m, st, x@);
        assert(self.c@ =~= next.c);
        let mut j: usize = 0;
        while j < h
            invariant
                lawful::<S>(),
                self.wf(),
                *self == (LstmCell { xh: self.xh, ifgo: self.ifgo, c: self.c, ..*old(self) }),
                self.model() == m,
                st == old(self).state(),
                next == cell_step(m, st, x@),
                xh == x@ + st.h,
                h == self.hidden_size,
                self.c@ == next.c,
                j <= h,
                forall|q: int| 0 <= q < 4 * h ==> #[trigger] self.ifgo@[q] == gate(m, xh, q),
                forall|q: int|
                    0 <= q < j ==> #[trigger] self.xh@[self.input_size + q] == next.h[q],
            decreases h - j,
        {
            let v = sigmoid(self.ifgo[3 * h + j]).mul(self.c[j].tanh());
            self.xh.set(self.input_size + j, v);
            j += 1;
        }
        assert(self.state().h =~= next.h) by {
            assert forall|q: int| 0 <= q < h implies self.state().h[q] == next.h[q] by {
                assert(self.xh@[self.input_size + q] == next.h[q]);
            }
        }
    }

    /// The sum of products of row `r` with input and hidden numbers.
    fn row_sum(&self, r: usize) -> (sum: S)
        requires
            lawful::<S>(),
            self.wf(),
            r < 4 * self.hidden_size,
        ensures
            sum == mac(
                S::zero_spec(),
                self.model().weight[r as int],
                self.xh@,
                (self.input_size + self.hidden_size) as nat,
            ),
    {
        let cols = self.input_size + self.hidden_size;
        let ghost row = self.model().weight[r as int];
        let mut sum = S::zero();
        let mut c: usize = 0;
        while c < cols
            invariant
                lawful::<S>(),
                self.wf(),
                r < 4 * self.hidden_size,
                cols == self.input_size + self.hidden_size,
                row == self.model().weight[r as int],
                c <= cols,
                sum == mac(S::zero_spec(), row, self.xh@, c as nat),
            decreases cols - c,
        {
            proof {
                lemma_cell(cols as int, 4 * self.hidden_size, r as int, c as int);
                lemma_mul_nonnegative(r as int, cols as int);
            }
            sum = sum.add(self.w[r * cols + c].mul(self.xh[c]));
            c += 1;
        }
        sum
    }

    /// The hidden numbers.
    pub fn hidden_state(&self) -> (r: &[S])
        requires
            self.wf(),
        ensures
            r@ == self.state().h,
    {
        let s = vstd::slice::slice_subrange(
            self.xh.as_slice(),
            self.input_size,
            self.input_size + self.hidden_size,
        );
        assert(s@ =~= self.state().h);
        s
    }
}

/// Write a list into another from place `at` on.
fn write_at<S: Scalar>(dst: &mut Vec<S>, at: usize, src: &Vec<S>)
    requires
        at + src@.len() == old(dst)@.len(),
    ensures
        final(dst)@ == old(dst)@.take(at as int) + src@,
{
    let mut i: usize = 0;
    while i < src.len()
        invariant
            i <= src@.len(),
            at + src@.len() == dst@.len(),
            dst@.len() == old(dst)@.len(),
            forall|q: int|
                0 <= q < dst@.len() ==> #[trigger] dst@[q] == if at <= q < at + i {
                    src@[q - at]
                } else {
                    old(dst)@[q]
                },
        decreases src@.len() - i,
    {
        assert(dst.len() <= usize::MAX);
        dst.set(at + i, src[i]);
        i += 1;
    }
    assert(dst@ =~= old(dst)@.take(at as int) + src@);
}

// Networks ===================================================================

/// A recurrent network as a mathematical map.
pub struct LstmModel<S: Scalar> {
    /// The cells, each reading the one before.
    pub cells: Seq<CellModel<S>>,
    /// The weights of the output, one row after the other.
    pub head_weight: Seq<S>,
    /// What is added to each output.
    pub head_bias: Seq<S>,
    /// Hidden numbers of each cell.
    pub hidden: nat,
    /// Channels read.
    pub inputs: nat,
    /// Channels written.
    pub outputs: nat,
    /// The sample rate that the network was made for.
    pub rate: S::Wide,
}

/// What cell `i` remembers after an input to the network.
pub open spec fn chain_step<S: Scalar>(
    cells: Seq<CellModel<S>>,
    st: Seq<CellState<S>>,
    x: Seq<S>,
    i: nat,
) -> CellState<S>
    decreases i,
{
    cell_step(
        cells[i as int],
        st[i as int],
        if i == 0 {
            x
        } else {
            chain_step(cells, st, x, (i - 1) as nat).h
        },
    )
}

/// What the cells remember after an input.
pub open spec fn lstm_step<S: Scalar>(
    cells: Seq<CellModel<S>>,
    st: Seq<CellState<S>>,
    x: Seq<S>,
) -> Seq<CellState<S>> {
    Seq::new(cells.len(), |i: int| chain_step(cells, st, x, i as nat))
}

/// What the cells remember after the first `n` samples.
pub open spec fn lstm_after<S: Scalar>(
    cells: Seq<CellModel<S>>,
    st: Seq<CellState<S>>,
    x: Seq<S::Wide>,
    n: nat,
) -> Seq<CellState<S>>
    decreases n,
{
    if n == 0 {
        st
    } else {
        lstm_step(
            cells,
            lstm_after::<S>(cells, st, x, (n - 1) as nat),
            mono::<S>(cells[0].inputs, x[n - 1]),
        )
    }
}

/// The output while the last cell shows `h`.
pub open spec fn lstm_output<S: Scalar>(m: LstmModel<S>, h: Seq<S>) -> S::Wide {
    mac(S::zero_spec(), m.head_weight, h, m.hidden).add_spec(m.head_bias[0]).widen_spec()
}

/// What the network makes of a block of samples.
pub open spec fn lstm_run<S: Scalar>(
    m: LstmModel<S>,
    st: Seq<CellState<S>>,
    x: Seq<S::Wide>,
) -> Seq<S::Wide> {
    Seq::new(
        x.len(),
        |f: int| lstm_output(m, lstm_after::<S>(m.cells, st, x, (f + 1) as nat).last().h),
    )
}

/// The cells of a network that has heard nothing.
pub open spec fn lstm_rest<S: Scalar>(m: LstmModel<S>) -> Seq<CellState<S>> {
    Seq::new(m.cells.len(), |i: int| cell_rest(m.cells[i]))
}

/// How many samples of silence bring a network to rest: half a second.
pub open spec fn lstm_reach<D: Sample>(rate: D) -> usize {
    let r = rate.halved_spec();
    if r <= 0 {
        1
    } else {
        r as usize
    }
}

/// A recurrent network with its state.
pub struct Lstm<S: Scalar> {
    /// The cells, each reading the one before.
    pub layers: Vec<LstmCell<S>>,
    /// The weights of the output, one row after the other.
    pub head_weight: Vec<S>,
    /// What is added to each output.
    pub head_bias: Vec<S>,
    /// Channels read.
    pub in_channels: usize,
    /// Channels written.
    pub out_channels: usize,
    /// Hidden numbers of each cell.
    pub hidden_size: usize,
    /// The sample rate that the network was made for.
    pub expected_sample_rate: S::Wide,
    /// The input of the first cell.
    pub input_scratch: Vec<S>,
}

/// The maps of the cells.
pub open spec fn cell_models<S: Scalar>(cells: Seq<LstmCell<S>>) -> Seq<CellModel<S>> {
    Seq::new(cells.len(), |i: int| cells[i].model())
}

/// What the cells remember.
pub open spec fn cell_states<S: Scalar>(cells: Seq<LstmCell<S>>) -> Seq<CellState<S>> {
    Seq::new(cells.len(), |i: int| cells[i].state())
}

/// The cells fit each other.
pub open spec fn cells_wf<S: Scalar>(cells: Seq<LstmCell<S>>, hidden: usize) -> bool {
    forall|i: int|
        0 <= i < cells.len() ==> {
            &&& (#[trigger] cells[i]).wf()
            &&& cells[i].hidden_size == hidden
            &&& i > 0 ==> cells[i].input_size == hidden
        }
}

impl<S: Scalar> Lstm<S> {
    /// The sizes agree.
    pub open spec fn wf(&self) -> bool {
        &&& self.layers@.len() > 0
        &&& cells_wf(self.layers@, self.hidden_size)
        &&& self.head_weight@.len() == self.out_channels * self.hidden_size
        &&& self.head_bias@.len() == self.out_channels
        &&& self.input_scratch@.len() >= 1
        &&& self.input_scratch@.len() >= self.layers@[0].input_size
        &&& forall|r: int|
            1 <= r < self.input_scratch@.len() ==> #[trigger] self.input_scratch@[r]
                == S::zero_spec()
    }

    /// The map that this network computes.
    pub open spec fn model(&self) -> LstmModel<S> {
        LstmModel {
            cells: cell_models(self.layers@),
            head_weight: self.head_weight@,
            head_bias: self.head_bias@,
            hidden: self.hidden_size as nat,
            inputs: self.in_channels as nat,
            outputs: self.out_channels as nat,
            rate: self.expected_sample_rate,
        }
    }

    /// What this network remembers.
    pub open spec fn state(&self) -> Seq<CellState<S>> {
        cell_states(self.layers@)
    }

    /// Channels read.
    pub fn in_channels(&self) -> (r: usize)
        ensures
            r == self.in_channels,
    {
        self.in_channels
    }

    /// Channels written.
    pub fn out_channels(&self) -> (r: usize)
        ensures
            r == self.out_channels,
    {
        self.out_channels
    }

    /// How many samples of silence bring the network to rest: half a second.
    pub fn prewarm_samples(&self) -> (r: usize)
        requires
            lawful::<S>(),
        ensures
            r == lstm_reach(self.expected_sample_rate),
    {
        let r = self.expected_sample_rate.halved();
        if r <= 0 {
            1
        } else {
            r as usize
        }
    }

    /// Forget everything heard.
    pub fn reset_state(&mut self)
        requires
            old(self).wf(),
        ensures
            final(self).wf(),
            final(self).model() == old(self).model(),
            final(self).state() == lstm_rest(old(self).model()),
    {
        let ghost entry = *self;
        let mut i: usize = 0;
        while i < self.layers.len()
            invariant
                i <= self.layers@.len(),
                *self == (Lstm { layers: self.layers, ..entry }),
                entry == *old(self),
                self.layers@.len() == entry.layers@.len(),
                self.wf(),
                cell_models(self.layers@) == cell_models(entry.layers@),
                forall|j: int|
                    0 <= j < i ==> (#[trigger] self.layers@[j]).state() == cell_rest(
                        cell_models(entry.layers@)[j],
                    ),
            decreases self.layers@.len() - i,
        {
            let ghost was = self.layers@;
            assert(cell_models(was)[i as int] == was[i as int].model());
            self.layers[i].reset_state();
            assert(cell_models(self.layers@) =~= cell_models(was));
            i += 1;
        }
        assert(self.state() =~= lstm_rest(old(self).model()));
    }

    /// Run the network on a block of samples.
    pub fn process_block(&mut self, input: &[S::Wide], output: &mut [S::Wide])
        requires
            lawful::<S>(),
            old(self).wf(),
            old(self).out_channels >= 1,
            input@.len() <= old(output)@.len(),
        ensures
            final(self).wf(),
            final(self).model() == old(self).model(),
            final(self).state() == lstm_after::<S>(
                old(self).model().cells,
                old(self).state(),
                input@,
                input@.len(),
            ),
            final(output)@ == overlay(
                old(output)@,
                lstm_run(old(self).model(), old(self).state(), input@),
            ),
    {
        let ghost m = self.model();
        let ghost st = self.state();
        let ghost want = lstm_run(m, st, input@);
        let mut n: usize = 0;
        while n < input.len()
            invariant
                lawful::<S>(),
                self.wf(),
                self.out_channels >= 1,
                self.model() == m,
                want == lstm_run(m, st, input@),
                n <= input@.len() <= output@.len(),
                output@.len() == old(output)@.len(),
                self.state() == lstm_after::<S>(m.cells, st, input@, n as nat),
                forall|k: int|
                    0 <= k < output@.len() ==> #[trigger] output@[k] == if k < n {
                        want[k]
                    } else {
                        old(output)@[k]
                    },
            decreases input@.len() - n,
        {
            let ghost before = self.state();
            let v = self.step(input[n]);
            output[n] = v;
            assert(self.state() == lstm_after::<S>(m.cells, st, input@, (n + 1) as nat));
            n += 1;
        }
        assert(output@ =~= overlay(old(output)@, want));
    }

    /// Run the network on one sample.
    fn step(&mut self, x: S::Wide) -> (r: S::Wide)
        requires
            lawful::<S>(),
            old(self).wf(),
            old(self).out_channels >= 1,
        ensures
            final(self).wf(),
            final(self).out_channels == old(self).out_channels,
            final(self).model() == old(self).model(),
            final(self).state() == lstm_step(
                old(self).model().cells,
                old(self).state(),
                mono::<S>(old(self).model().cells[0].inputs, x),
            ),
            r == lstm_output(old(self).model(), final(self).state().last().h),
    {
        let ghost m = self.model();
        self.input_scratch.set(0, S::narrow(x));
        let first_in = self.layers[0].input_size;
        let ghost frame = mono::<S>(m.cells[0].inputs, x);
        let input = vstd::slice::slice_subrange(self.input_scratch.as_slice(), 0, first_in);
        assert(input@ =~= frame);
        run_cells(&mut self.layers, input, Ghost(self.hidden_size));
        assert(cell_models(self.layers@) == m.cells);
        let last = self.layers.len() - 1;
        assert(self.layers@[last as int].wf());
        let hidden = self.layers[last].hidden_state();
        let mut sum = S::zero();
        let mut i: usize = 0;
        proof {
            lemma_mul_inequality(1, self.out_channels as int, self.hidden_size as int);
        }
        while i < self.hidden_size
            invariant
                lawful::<S>(),
                i <= self.hidden_size,
                self.hidden_size <= self.head_weight@.len(),
                hidden@.len() == self.hidden_size,
                sum == mac(S::zero_spec(), self.head_weight@, hidden@, i as nat),
            decreases self.hidden_size - i,
        {
            sum = sum.add(self.head_weight[i].mul(hidden[i]));
            i += 1;
        }
        sum.add(self.head_bias[0]).widen()
    }
}

/// Let all cells hear an input, each what the one before shows.
fn run_cells<S: Scalar>(cells: &mut Vec<LstmCell<S>>, x: &[S], Ghost(hidden): Ghost<usize>)
    requires
        lawful::<S>(),
        old(cells)@.len() > 0,
        cells_wf(old(cells)@, hidden),
        x@.len() == old(cells)@[0].input_size,
    ensures
        final(cells)@.len() == old(cells)@.len(),
        cells_wf(final(cells)@, hidden),
        final(cells)@[0].input_size == old(cells)@[0].input_size,
        cell_models(final(cells)@) == cell_models(old(cells)@),
        cell_states(final(cells)@) == lstm_step(
            cell_models(old(cells)@),
            cell_states(old(cells)@),
            x@,
        ),
{
    let ghost first = cells@;
    let ghost m = cell_models(first);
    let ghost st = cell_states(first);
    let mut i: usize = 0;
    while i < cells.len()
        invariant
            lawful::<S>(),
            i <= cells@.len(),
            cells@.len() == first.len(),
            first.len() > 0,
            m == cell_models(first),
            st == cell_states(first),
            cells_wf(cells@, hidden),
            cells@[0].input_size == first[0].input_size,
            x@.len() == first[0].input_size,
            forall|j: int| i <= j < first.len() ==> #[trigger] cells@[j] == first[j],
            forall|j: int|
                0 <= j < i ==> {
                    &&& (#[trigger] cells@[j]).model() == m[j]
                    &&& cells@[j].state() == chain_step(m, st, x@, j as nat)
                },
        decreases cells@.len() - i,
    {
        let ghost was = cells@;
        assert(was[i as int] == first[i as int]);
        assert(was[i as int].wf());
        assert(m[i as int] == was[i as int].model());
        assert(st[i as int] == was[i as int].state());
        if i == 0 {
            cells[i].process(x);
        } else {
            assert(was[i - 1].wf());
            let (before, rest) = cells.as_mut_slice().split_at_mut(i);
            let shown = before[i - 1].hidden_state();
            rest[0].process(shown);
        }
        i += 1;
    }
    assert(cell_models(cells@) =~= m);
    assert(cell_states(cells@) =~= lstm_step(m, st, x@));
}

// Reading ====================================================================

/// A number that the configuration must give.
pub open spec fn lstm_number(config: Tree, key: Seq<char>) -> Result<usize, Seq<char>> {
    match config.get(key) {
        Some(v) => match v.as_u64() {
            Some(n) => Ok(n as usize),
            None => Err("LSTM config missing '"@ + key + "'"@),
        },
        None => Err("LSTM config missing '"@ + key + "'"@),
    }
}

fn read_lstm_number(config: &Json, key: &str) -> (r: Result<usize, String>)
    ensures
        match r {
            Ok(n) => lstm_number(config@, key@) == Ok::<usize, Seq<char>>(n),
            Err(e) => lstm_number(config@, key@) == Err::<usize, Seq<char>>(e@),
        },
{
    if let Some(v) = config.get(key) {
        if let Some(n) = v.as_u64() {
            return Ok(n as usize);
        }
    }
    let mut e = glue("LSTM config missing '", key);
    e.append("'");
    Err(e)
}

/// Channels with a default of one.
pub open spec fn lstm_channels(config: Tree, key: Seq<char>) -> usize {
    match config.get(key) {
        Some(v) => match v.as_u64() {
            Some(n) => n as usize,
            None => 1,
        },
        None => 1,
    }
}

fn read_lstm_channels(config: &Json, key: &str) -> (r: usize)
    ensures
        r == lstm_channels(config@, key@),
{
    if let Some(v) = config.get(key) {
        if let Some(n) = v.as_u64() {
            return n as usize;
        }
    }
    1
}

/// The sizes of a recurrent network.
pub struct LstmSizes {
    /// Number of cells.
    pub layers: usize,
    /// Numbers that the first cell reads.
    pub input: usize,
    /// Hidden numbers of each cell.
    pub hidden: usize,
    /// Channels read.
    pub inputs: usize,
    /// Channels written.
    pub outputs: usize,
}

/// The sizes that a configuration gives.
pub open spec fn lstm_sizes(config: Tree) -> Result<LstmSizes, Seq<char>> {
    match lstm_number(config, "num_layers"@) {
        Err(e) => Err(e),
        Ok(layers) => match lstm_number(config, "input_size"@) {
            Err(e) => Err(e),
            Ok(input) => match lstm_number(config, "hidden_size"@) {
                Err(e) => Err(e),
                Ok(hidden) => Ok(
                    LstmSizes {
                        layers,
                        input,
                        hidden,
                        inputs: lstm_channels(config, "in_channels"@),
                        outputs: lstm_channels(config, "out_channels"@),
                    },
                ),
            },
        },
    }
}

/// Numbers that cell `i` reads.
pub open spec fn cell_inputs(z: LstmSizes, i: int) -> nat {
    if i == 0 {
        z.input as nat
    } else {
        z.hidden as nat
    }
}

/// How many weights the first `k` cells read.
pub open spec fn cells_start(z: LstmSizes, k: nat) -> nat
    decreases k,
{
    if k == 0 {
        0
    } else {
        cells_start(z, (k - 1) as nat) + cell_count(cell_inputs(z, k - 1), z.hidden as nat)
    }
}

/// Why the first `k` cells cannot be made from `len` weights, where they
/// cannot.
pub open spec fn cells_error(z: LstmSizes, len: nat, k: nat) -> Option<Seq<char>>
    decreases k,
{
    if k == 0 {
        None
    } else {
        match cells_error(z, len, (k - 1) as nat) {
            Some(e) => Some(e),
            None => if !cell_fits(cell_inputs(z, k - 1), z.hidden as nat) {
                Some(oversize_text())
            } else if cells_start(z, k) > len {
                Some(underflow_text(len))
            } else {
                None
            },
        }
    }
}

/// The cells after one that cannot be made do not matter.
proof fn lemma_cells_stop(z: LstmSizes, len: nat, j: nat, k: nat)
    requires
        j <= k,
        cells_error(z, len, j) is Some,
    ensures
        cells_error(z, len, k) == cells_error(z, len, j),
    decreases k - j,
{
    if j < k {
        lemma_cells_stop(z, len, j, (k - 1) as nat);
    }
}

/// The network that a list of weights describes.
pub open spec fn lstm_from<S: Scalar>(z: LstmSizes, data: Seq<S>, rate: S::Wide) -> LstmModel<S> {
    let start = cells_start(z, z.layers as nat) as int;
    LstmModel {
        cells: Seq::new(
            z.layers as nat,
            |i: int|
                cell_from(
                    data,
                    cells_start(z, i as nat) as int,
                    cell_inputs(z, i),
                    z.hidden as nat,
                ),
        ),
        head_weight: data.subrange(start, start + z.outputs * z.hidden),
        head_bias: data.subrange(
            start + z.outputs * z.hidden,
            start + z.outputs * z.hidden + z.outputs,
        ),
        hidden: z.hidden as nat,
        inputs: z.inputs as nat,
        outputs: z.outputs as nat,
        rate,
    }
}

/// How many weights a network reads.
pub open spec fn lstm_count(z: LstmSizes) -> nat {
    (cells_start(z, z.layers as nat) + z.outputs * z.hidden + z.outputs) as nat
}

/// The network of these sizes and a list of weights.
pub open spec fn lstm_sized<S: Scalar>(z: LstmSizes, data: Seq<S>, rate: S::Wide) -> Result<
    LstmModel<S>,
    Seq<char>,
> {
    match cells_error(z, data.len(), z.layers as nat) {
        Some(e) => Err(e),
        None => if z.layers == 0 {
            Err("LSTM requires at least one layer"@)
        } else if z.outputs * z.hidden > usize::MAX {
            Err(oversize_text())
        } else if lstm_count(z) > data.len() {
            Err(underflow_text(data.len()))
        } else if lstm_count(z) < data.len() {
            Err(mismatch_text(lstm_count(z), data.len()))
        } else {
            Ok(lstm_from(z, data, rate))
        },
    }
}

/// The network of a configuration and a list of weights.
pub open spec fn lstm_of<S: Scalar>(config: Tree, data: Seq<S>, rate: S::Wide) -> Result<
    LstmModel<S>,
    Seq<char>,
> {
    match lstm_sizes(config) {
        Err(e) => Err(e),
        Ok(z) => lstm_sized(z, data, rate),
    }
}

fn read_lstm_sizes(config: &Json) -> (r: Result<LstmSizes, String>)
    ensures
        match r {
            Ok(z) => lstm_sizes(config@) == Ok::<LstmSizes, Seq<char>>(z),
            Err(e) => lstm_sizes(config@) == Err::<LstmSizes, Seq<char>>(e@),
        },
{
    let layers = match read_lstm_number(config, "num_layers") {
        Ok(n) => n,
        Err(e) => {
            return Err(e);
        },
    };
    let input = match read_lstm_number(config, "input_size") {
        Ok(n) => n,
        Err(e) => {
            return Err(e);
        },
    };
    let hidden = match read_lstm_number(config, "hidden_size") {
        Ok(n) => n,
        Err(e) => {
            return Err(e);
        },
    };
    let inputs = read_lstm_channels(config, "in_channels");
    let outputs = read_lstm_channels(config, "out_channels");
    Ok(LstmSizes { layers, input, hidden, inputs, outputs })
}

/// Make all cells with weights from a list.
fn load_cells<S: Scalar>(z: &LstmSizes, w: &mut Weights<S>) -> (r: Result<
    Vec<LstmCell<S>>,
    String,
>)
    requires
        lawful::<S>(),
        old(w).wf(),
        old(w).pos == 0,
    ensures
        final(w).wf(),
        final(w).data == old(w).data,
        ({
            let data = old(w).data@;
            let error = cells_error(*z, data.len(), z.layers as nat);
            match r {
                Ok(v) => {
                    &&& error is None
                    &&& final(w).pos == cells_start(*z, z.layers as nat)
                    &&& v@.len() == z.layers
                    &&& cells_wf(v@, z.hidden)
                    &&& v@.len() > 0 ==> v@[0].input_size == z.input
                    &&& forall|i: int|
                        0 <= i < v@.len() ==> {
                            &&& (#[trigger] v@[i]).model() == cell_from(
                                data,
                                cells_start(*z, i as nat) as int,
                                cell_inputs(*z, i),
                                z.hidden as nat,
                            )
                            &&& v@[i].state() == cell_rest(v@[i].model())
                        }
                },
                Err(e) => error == Some(e@),
            }
        }),
{
    let ghost data = w.data@;
    let mut out: Vec<LstmCell<S>> = Vec::new();
    let mut i: usize = 0;
    while i < z.layers
        invariant
            lawful::<S>(),
            i <= z.layers,
            w.wf(),
            w.data == old(w).data,
            data == w.data@,
            out@.len() == i,
            cells_error(*z, data.len(), i as nat) is None,
            w.pos == cells_start(*z, i as nat),
            cells_wf(out@, z.hidden),
            out@.len() > 0 ==> out@[0].input_size == z.input,
            forall|j: int|
                0 <= j < i ==> {
                    &&& (#[trigger] out@[j]).model() == cell_from(
                        data,
                        cells_start(*z, j as nat) as int,
                        cell_inputs(*z, j),
                        z.hidden as nat,
                    )
                    &&& out@[j].state() == cell_rest(out@[j].model())
                },
        decreases z.layers - i,
    {
        let cell_in = if i == 0 {
            z.input
        } else {
            z.hidden
        };
        match LstmCell::new(cell_in, z.hidden, w) {
            Ok(c) => out.push(c),
            Err(e) => {
                proof {
                    lemma_cells_stop(*z, data.len(), (i + 1) as nat, z.layers as nat);
                }
                return Err(e);
            },
        }
        i += 1;
    }
    Ok(out)
}

/// Read a configuration and build its network with `weights`.
pub fn parse<S: Scalar>(config: &Json, weights: &[S], expected_sample_rate: S::Wide) -> (r: Result<
    Lstm<S>,
    String,
>)
    requires
        lawful::<S>(),
    ensures
        match r {
            Ok(l) => {
                &&& l.wf()
                &&& lstm_of(config@, weights@, expected_sample_rate) == Ok::<
                    LstmModel<S>,
                    Seq<char>,
                >(l.model())
                &&& l.state() == lstm_rest(l.model())
            },
            Err(e) => lstm_of(config@, weights@, expected_sample_rate) == Err::<
                LstmModel<S>,
                Seq<char>,
            >(e@),
        },
{
    let z = match read_lstm_sizes(config) {
        Ok(z) => z,
        Err(e) => {
            return Err(e);
        },
    };
    let mut w = Weights::new(weights);
    let layers = match load_cells(&z, &mut w) {
        Ok(v) => v,
        Err(e) => {
            return Err(e);
        },
    };
    if layers.len() == 0 {
        return Err("LSTM requires at least one layer".to_owned());
    }
    if !product_fits(z.outputs, z.hidden) {
        return Err(oversize_message());
    }
    proof {
        lemma_mul_nonnegative(z.outputs as int, z.hidden as int);
    }
    let head_weight = match take_weights(&mut w, z.outputs * z.hidden) {
        Ok(v) => v,
        Err(e) => {
            return Err(e);
        },
    };
    let head_bias = match take_weights(&mut w, z.outputs) {
        Ok(v) => v,
        Err(e) => {
            return Err(e);
        },
    };
    if let Err(e) = w.finish() {
        return Err(e);
    }
    let scratch = if z.input >= 1 {
        z.input
    } else {
        1
    };
    let l = Lstm {
        layers,
        head_weight,
        head_bias,
        in_channels: z.inputs,
        out_channels: z.outputs,
        hidden_size: z.hidden,
        expected_sample_rate,
        input_scratch: zero_list(scratch),
    };
    proof {
        assert(l.model().cells =~= lstm_from(z, weights@, expected_sample_rate).cells);
        assert(l.state() =~= lstm_rest(l.model()));
    }
    Ok(l)
}

} // verus!
