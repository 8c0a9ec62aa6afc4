//! What a recurrent network does with a sample, cell by cell.

use crate::num::{Sample, Scalar};
use crate::pure::activations::{activated, Act};
use crate::pure::lstm::{
    cell_step, chain_step, gate, lstm_after, lstm_reach, lstm_rest, lstm_run, CellModel, CellState,
    LstmModel,
};
use crate::pure::nn::mac;
use crate::pure::wavenet::mono;
use vstd::prelude::*;

verus! {

// Chains =====================================================================

/// Where every cell has the same place in another network, and hears the same,
/// it remembers the same.
proof fn lemma_prefix<S: Scalar>(
    cells: Seq<CellModel<S>>,
    st: Seq<CellState<S>>,
    x: Seq<S>,
    k: nat,
    i: nat,
)
    requires
        i < k <= cells.len(),
        st.len() == cells.len(),
    ensures
        chain_step(cells, st, x, i) == chain_step(
            cells.take(k as int),
            st.take(k as int),
            x,
            i,
        ),
    decreases i,
{
    if i > 0 {
        lemma_prefix(cells, st, x, k, (i - 1) as nat);
    }
}

/// There is a state for each cell.
proof fn lemma_after_len<S: Scalar>(
    cells: Seq<CellModel<S>>,
    st: Seq<CellState<S>>,
    x: Seq<S::Wide>,
    n: nat,
)
    requires
        st.len() == cells.len(),
    ensures
        lstm_after::<S>(cells, st, x, n).len() == cells.len(),
{
}

/// The first cells of a network hear nothing of the later ones.
pub proof fn first_cells_are_a_network<S: Scalar>(
    cells: Seq<CellModel<S>>,
    st: Seq<CellState<S>>,
    x: Seq<S::Wide>,
    k: nat,
    n: nat,
)
    requires
        0 < k <= cells.len(),
        st.len() == cells.len(),
    ensures
        lstm_after::<S>(cells, st, x, n).take(k as int) == lstm_after::<S>(
            cells.take(k as int),
            st.take(k as int),
            x,
            n,
        ),
    decreases n,
{
    if n > 0 {
        let m = (n - 1) as nat;
        first_cells_are_a_network(cells, st, x, k, m);
        let before = lstm_after::<S>(cells, st, x, m);
        lemma_after_len(cells, st, x, m);
        let frame = mono::<S>(cells[0].inputs, x[n - 1]);
        assert forall|i: int| 0 <= i < k implies #[trigger] lstm_after::<S>(
            cells,
            st,
            x,
            n,
        ).take(k as int)[i] == lstm_after::<S>(
            cells.take(k as int),
            st.take(k as int),
            x,
            n,
        )[i] by {
            lemma_prefix(cells, before, frame, k, i as nat);
        }
    }
    assert(lstm_after::<S>(cells, st, x, n).take(k as int) =~= lstm_after::<S>(
        cells.take(k as int),
        st.take(k as int),
        x,
        n,
    ));
}

/// A network is the network of all cells but the last, followed by the last:
/// with each sample the last cell makes one step from its own state, on the
/// hidden numbers that the network before it shows after the same sample.
pub proof fn last_cell_hears_the_network_before<S: Scalar>(
    cells: Seq<CellModel<S>>,
    st: Seq<CellState<S>>,
    x: Seq<S::Wide>,
    n: nat,
)
    requires
        cells.len() >= 2,
        st.len() == cells.len(),
    ensures
        lstm_after::<S>(cells, st, x, n + 1).last() == cell_step(
            cells.last(),
            lstm_after::<S>(cells, st, x, n).last(),
            lstm_after::<S>(cells.drop_last(), st.drop_last(), x, n + 1).last().h,
        ),
{
    let k = (cells.len() - 1) as nat;
    first_cells_are_a_network(cells, st, x, k, n + 1);
    assert(cells.take(k as int) =~= cells.drop_last());
    assert(st.take(k as int) =~= st.drop_last());
    lemma_after_len(cells, st, x, n);
    let after = lstm_after::<S>(cells, st, x, n + 1);
    assert(after.take(k as int).last() == after[k - 1]);
}

/// The first cell hears the sample.
pub proof fn first_cell_hears_the_sample<S: Scalar>(
    cells: Seq<CellModel<S>>,
    st: Seq<CellState<S>>,
    x: Seq<S::Wide>,
    n: nat,
)
    requires
        cells.len() >= 1,
        st.len() == cells.len(),
    ensures
        ({
            let heard = Seq::new(
                cells[0].inputs,
                |r: int|
                    if r == 0 {
                        S::narrow_spec(x[n as int])
                    } else {
                        S::zero_spec()
                    },
            );
            lstm_after::<S>(cells, st, x, n + 1)[0] == cell_step(
                cells[0],
                lstm_after::<S>(cells, st, x, n)[0],
                heard,
            )
        }),
        lstm_after::<S>(cells, st, x, 0) == st,
{
    let heard = Seq::new(
        cells[0].inputs,
        |r: int|
            if r == 0 {
                S::narrow_spec(x[n as int])
            } else {
                S::zero_spec()
            },
    );
    assert(heard =~= mono::<S>(cells[0].inputs, x[n as int]));
}

/// Two networks agree behind cell `j`, and their cells `j` show the same hidden
/// numbers after every sample.
pub open spec fn agree_behind<S: Scalar>(
    a: Seq<CellModel<S>>,
    b: Seq<CellModel<S>>,
    sa: Seq<CellState<S>>,
    sb: Seq<CellState<S>>,
    x: Seq<S::Wide>,
    j: int,
) -> bool {
    &&& a.len() == b.len() == sa.len() == sb.len()
    &&& 0 <= j < a.len()
    &&& forall|i: int| j < i < a.len() ==> #[trigger] a[i] == b[i]
    &&& forall|i: int| j < i < a.len() ==> #[trigger] sa[i] == sb[i]
    &&& forall|n: nat|
        0 < n <= x.len() ==> (#[trigger] lstm_after::<S>(a, sa, x, n))[j].h == lstm_after::<S>(
            b,
            sb,
            x,
            n,
        )[j].h
}

/// What stands before a cell is heard through its hidden numbers alone: cells
/// behind it remember the same in two networks where it shows the same.
pub proof fn hidden_numbers_are_all_that_is_heard<S: Scalar>(
    a: Seq<CellModel<S>>,
    b: Seq<CellModel<S>>,
    sa: Seq<CellState<S>>,
    sb: Seq<CellState<S>>,
    x: Seq<S::Wide>,
    j: int,
    n: nat,
    i: int,
)
    requires
        agree_behind(a, b, sa, sb, x, j),
        n <= x.len(),
        j < i < a.len(),
    ensures
        lstm_after::<S>(a, sa, x, n)[i] == lstm_after::<S>(b, sb, x, n)[i],
    decreases n, i,
{
    if n > 0 {
        let m = (n - 1) as nat;
        hidden_numbers_are_all_that_is_heard(a, b, sa, sb, x, j, m, i);
        lemma_after_len(a, sa, x, m);
        lemma_after_len(b, sb, x, m);
        let p = lstm_after::<S>(a, sa, x, n);
        let q = lstm_after::<S>(b, sb, x, n);
        if i > j + 1 {
            hidden_numbers_are_all_that_is_heard(a, b, sa, sb, x, j, n, i - 1);
        }
        assert(p[i - 1].h == q[i - 1].h);
        assert(a[i] == b[i]);
    }
}

/// Networks that differ only before a cell, and whose cells there show the same
/// hidden numbers, give the same output.
pub proof fn equal_hidden_numbers_give_equal_output<S: Scalar>(
    a: LstmModel<S>,
    b: LstmModel<S>,
    sa: Seq<CellState<S>>,
    sb: Seq<CellState<S>>,
    x: Seq<S::Wide>,
    j: int,
)
    requires
        agree_behind(a.cells, b.cells, sa, sb, x, j),
        b == (LstmModel { cells: b.cells, ..a }),
    ensures
        lstm_run(a, sa, x) == lstm_run(b, sb, x),
{
    let last = a.cells.len() - 1;
    assert forall|f: int| 0 <= f < x.len() implies #[trigger] lstm_run(a, sa, x)[f] == lstm_run(
        b,
        sb,
        x,
    )[f] by {
        let n = (f + 1) as nat;
        let p = lstm_after::<S>(a.cells, sa, x, n);
        let q = lstm_after::<S>(b.cells, sb, x, n);
        lemma_after_len(a.cells, sa, x, n);
        lemma_after_len(b.cells, sb, x, n);
        if j < last {
            hidden_numbers_are_all_that_is_heard(a.cells, b.cells, sa, sb, x, j, n, last);
        }
        assert(p.last().h == q.last().h);
    }
    assert(lstm_run(a, sa, x) =~= lstm_run(b, sb, x));
}

// Cells ======================================================================

/// The sum that row `r` of a cell makes: the inputs first, then the hidden
/// numbers, each with its weight, and at last the bias.
pub open spec fn row_sum<S: Scalar>(m: CellModel<S>, x: Seq<S>, h: Seq<S>, r: int) -> S {
    let heard = mac(S::zero_spec(), m.weight[r], x, m.inputs);
    let own = Seq::new(m.hidden, |i: int| m.weight[r][m.inputs + i]);
    mac(heard, own, h, m.hidden).add_spec(m.bias[r])
}

/// A sum over two lists is a sum over the first that goes on over the second.
proof fn lemma_split_sum<S: Scalar>(
    start: S,
    row: Seq<S>,
    x: Seq<S>,
    h: Seq<S>,
    k: nat,
)
    requires
        k <= h.len(),
    ensures
        mac(start, row, x + h, x.len() + k) == mac(
            mac(start, row, x, x.len()),
            Seq::new(h.len(), |i: int| row[x.len() + i]),
            h,
            k,
        ),
    decreases k,
{
    if k == 0 {
        lemma_same_sum(start, row, x + h, x, x.len());
    } else {
        lemma_split_sum(start, row, x, h, (k - 1) as nat);
    }
}

/// A sum reads no number beyond its end.
proof fn lemma_same_sum<S: Scalar>(start: S, row: Seq<S>, x: Seq<S>, y: Seq<S>, n: nat)
    requires
        forall|i: int| 0 <= i < n ==> #[trigger] x[i] == y[i],
    ensures
        mac(start, row, x, n) == mac(start, row, y, n),
    decreases n,
{
    if n > 0 {
        lemma_same_sum(start, row, x, y, (n - 1) as nat);
        assert(x[n - 1] == y[n - 1]);
    }
}

/// A step of a cell: of the four rows of hidden number `i`, the second decides
/// how much of the memory is kept and the first how much of the third is added,
/// and the fourth decides how much of the memory is shown.
pub proof fn cells_keep_add_and_show<S: Scalar>(
    m: CellModel<S>,
    st: CellState<S>,
    x: Seq<S>,
    i: int,
)
    requires
        x.len() == m.inputs,
        st.h.len() == m.hidden,
        0 <= i < m.hidden,
    ensures
        ({
            let after = cell_step(m, st, x);
            let add = activated(Act::Sigmoid, row_sum(m, x, st.h, i), 0);
            let keep = activated(Act::Sigmoid, row_sum(m, x, st.h, m.hidden + i), 0);
            let new = row_sum(m, x, st.h, 2 * m.hidden + i).tanh_spec();
            let show = activated(Act::Sigmoid, row_sum(m, x, st.h, 3 * m.hidden + i), 0);
            &&& after.c.len() == m.hidden
            &&& after.h.len() == m.hidden
            &&& after.c[i] == keep.mul_spec(st.c[i]).add_spec(add.mul_spec(new))
            &&& after.h[i] == show.mul_spec(after.c[i].tanh_spec())
        }),
{
    assert forall|r: int| #[trigger] gate(m, x + st.h, r) == row_sum(m, x, st.h, r) by {
        lemma_split_sum(S::zero_spec(), m.weight[r], x, st.h, m.hidden);
    }
}

/// A sum of products grows by one product with each number.
pub proof fn sums_grow_by_products<S: Scalar>(start: S, row: Seq<S>, x: Seq<S>, n: nat)
    ensures
        mac(start, row, x, 0) == start,
        mac(start, row, x, n + 1) == mac(start, row, x, n).add_spec(
            row[n as int].mul_spec(x[n as int]),
        ),
{
}

// Output and rest ============================================================

/// The output after each sample is the weighted sum of the hidden numbers that
/// the last cell shows then, and the bias.
pub proof fn outputs_read_the_last_cell<S: Scalar>(
    m: LstmModel<S>,
    st: Seq<CellState<S>>,
    x: Seq<S::Wide>,
    f: int,
)
    requires
        m.cells.len() >= 1,
        0 <= f < x.len(),
        st.len() == m.cells.len(),
    ensures
        lstm_run(m, st, x).len() == x.len(),
        ({
            let shown = lstm_after::<S>(m.cells, st, x, (f + 1) as nat)[m.cells.len() - 1].h;
            lstm_run(m, st, x)[f] == mac(S::zero_spec(), m.head_weight, shown, m.hidden).add_spec(
                m.head_bias[0],
            ).widen_spec()
        }),
{
    lemma_after_len(m.cells, st, x, (f + 1) as nat);
}

/// A network in rest has the hidden numbers and the memories that its weights
/// give.
pub proof fn rest_is_given_by_the_weights<S: Scalar>(m: LstmModel<S>, i: int)
    requires
        0 <= i < m.cells.len(),
    ensures
        lstm_rest(m).len() == m.cells.len(),
        lstm_rest(m)[i].h == m.cells[i].h0,
        lstm_rest(m)[i].c == m.cells[i].c0,
{
}

/// A network warms up for half a second: half of its sample rate in samples, and
/// one sample where that is not above zero.
pub proof fn warming_up_takes_half_a_second<D: Sample>(rate: D)
    ensures
        rate.halved_spec() > 0 ==> lstm_reach(rate) == rate.halved_spec(),
        rate.halved_spec() <= 0 ==> lstm_reach(rate) == 1,
{
}

} // verus!
