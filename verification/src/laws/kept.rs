//! The weights of a reduced network are weights of the full one, in their order,
//! with some left out; at full size none is.

use crate::laws::slices::{
    array_within, film_ungrouped, kept_weights_are_enough, layer_like, lemma_counts,
};
use crate::laws::tight::array_like;
use crate::num::Scalar;
use crate::pure::array_config::{array_spec_wf, ArraySpec};
use crate::pure::assemble::{array_plan, layer_plan, slot_plan};
use crate::pure::film::amounts;
use crate::pure::layer::z_rows;
use crate::pure::net_build::{array_plans, stacks_start};
use crate::pure::plan::{
    array_count, array_start, film_dim, layers_start, part_count, part_start, ArrayPlan, LayerPlan,
};
use crate::pure::slim_config::slim_error;
use crate::pure::slim_extract::{block, block_count, cut, lesser};
use crate::pure::slim_weights::{
    all_resized, array_cut, can_cut, layer_cut, layers_cut, net_cut, part_cut, resized,
    slimmed_weights, stacks_cut,
};
use vstd::arithmetic::mul::*;
use vstd::prelude::*;

verus! {

/// The numbers stand at these places of a list, between `from` and `to`, and the
/// places ascend.
pub open spec fn stand_at<S>(
    small: Seq<S>,
    data: Seq<S>,
    places: Seq<int>,
    from: int,
    to: int,
) -> bool {
    &&& places.len() == small.len()
    &&& forall|j: int| 0 <= j < places.len() ==> from <= #[trigger] places[j] < to
    &&& forall|j: int, k: int|
        0 <= j < k < places.len() ==> #[trigger] places[j] < #[trigger] places[k]
    &&& forall|j: int| 0 <= j < places.len() ==> #[trigger] small[j] == data[places[j]]
}

/// The numbers are some of those of a list between `from` and `to`, in their
/// order.
pub open spec fn some_of<S>(small: Seq<S>, data: Seq<S>, from: int, to: int) -> bool {
    exists|places: Seq<int>| stand_at(small, data, places, from, to)
}

/// Some of a stretch, and some of the next one.
proof fn lemma_join<S>(a: Seq<S>, b: Seq<S>, data: Seq<S>, from: int, mid: int, to: int)
    requires
        some_of(a, data, from, mid),
        some_of(b, data, mid, to),
        from <= mid <= to,
    ensures
        some_of(a + b, data, from, to),
{
    let p = choose|places: Seq<int>| stand_at(a, data, places, from, mid);
    let q = choose|places: Seq<int>| stand_at(b, data, places, mid, to);
    assert(stand_at(a + b, data, p + q, from, to));
}

/// Some of a stretch are some of a longer one.
proof fn lemma_widen<S>(a: Seq<S>, data: Seq<S>, from: int, to: int, later: int)
    requires
        some_of(a, data, from, to),
        to <= later,
    ensures
        some_of(a, data, from, later),
{
    let p = choose|places: Seq<int>| stand_at(a, data, places, from, to);
    assert(stand_at(a, data, p, from, later));
}

/// The numbers of a stretch are some of it.
proof fn lemma_stretch<S>(data: Seq<S>, from: int, n: nat, to: int)
    requires
        0 <= from,
        from + n <= to,
        from + n <= data.len(),
    ensures
        some_of(data.subrange(from, from + n), data, from, to),
{
    let places = Seq::new(n, |j: int| from + j);
    assert(stand_at(data.subrange(from, from + n), data, places, from, to));
}

/// Nothing is some of every stretch.
proof fn lemma_none<S>(data: Seq<S>, from: int, to: int)
    ensures
        some_of(Seq::<S>::empty(), data, from, to),
{
    assert(stand_at(Seq::<S>::empty(), data, Seq::<int>::empty(), from, to));
}

/// The kept numbers of rows.
proof fn lemma_cut_some<S>(data: Seq<S>, pos: int, row: nat, keep: nat, rows: nat)
    requires
        keep <= row,
        0 <= pos,
        pos + rows * row <= data.len(),
    ensures
        some_of(cut(data, pos, row, keep, rows), data, pos, pos + rows * row),
    decreases rows,
{
    if rows == 0 {
        lemma_mul_basics(row as int);
        lemma_none(data, pos, pos);
    } else {
        let n = (rows - 1) as nat;
        assert(n * row + row == rows * row) by (nonlinear_arith)
            requires
                n == rows - 1,
        ;
        lemma_mul_nonnegative(n as int, row as int);
        lemma_cut_some(data, pos, row, keep, n);
        let at = pos + n * row;
        lemma_stretch(data, at, keep, at + row);
        lemma_join(
            cut(data, pos, row, keep, n),
            data.subrange(at, at + keep),
            data,
            pos,
            at,
            at + row,
        );
    }
}

/// The kept weights of a block.
proof fn lemma_block_some<S>(
    data: Seq<S>,
    pos: int,
    full_in: nat,
    full_out: nat,
    slim_in: nat,
    slim_out: nat,
    taps: nat,
    bias: bool,
)
    requires
        0 <= pos,
        pos + block_count(full_in, full_out, taps, bias) <= data.len(),
    ensures
        some_of(
            block(data, pos, full_in, full_out, slim_in, slim_out, taps, bias),
            data,
            pos,
            pos + block_count(full_in, full_out, taps, bias),
        ),
{
    let rows = lesser(slim_out, full_out);
    let ins = lesser(slim_in, full_in);
    let row = full_in * taps;
    let tail = pos + full_out * row;
    lemma_mul_inequality(ins as int, full_in as int, taps as int);
    lemma_mul_inequality(rows as int, full_out as int, row as int);
    let kept = cut(data, pos, row, ins * taps, rows);
    lemma_cut_some(data, pos, row, ins * taps, rows);
    lemma_widen(kept, data, pos, pos + rows * row, tail);
    if bias {
        lemma_stretch(data, tail, rows, tail + full_out);
        lemma_join(
            kept,
            data.subrange(tail, tail + rows),
            data,
            pos,
            tail,
            tail + full_out,
        );
    } else {
        assert(kept + Seq::<S>::empty() =~= kept);
    }
}

/// The kept weights of a part.
proof fn lemma_part_some<S>(p: LayerPlan<S>, q: LayerPlan<S>, data: Seq<S>, pos: int, k: int)
    requires
        layer_like(q, p),
        0 <= k < 12,
        0 <= pos,
        pos + part_start(p, k as nat) + part_count(p, k) <= data.len(),
    ensures
        some_of(
            part_cut(p, q, data, pos, k),
            data,
            pos + part_start(p, k as nat),
            pos + part_start(p, k as nat) + part_count(p, k),
        ),
{
    let at = pos + part_start(p, k as nat);
    let full = z_rows(p.gating, p.bottleneck);
    let slim = z_rows(q.gating, q.bottleneck);
    lemma_none(data, at, at);
    if k == 0 {
        lemma_counts(p.channels, full, p.kernel, true);
        lemma_block_some(data, at, p.channels, full, q.channels, slim, p.kernel, true);
    } else if k == 1 {
        lemma_counts(p.condition, full, 1, false);
        lemma_block_some(data, at, p.condition, full, q.condition, slim, 1, false);
    } else if k == 2 {
        if p.layer1x1 is Some {
            lemma_counts(p.bottleneck, p.channels, 1, true);
            lemma_block_some(
                data,
                at,
                p.bottleneck,
                p.channels,
                q.bottleneck,
                q.channels,
                1,
                true,
            );
        }
    } else if k == 3 {
        if let Some((out, _)) = p.head1x1 {
            lemma_counts(p.bottleneck, out, 1, true);
            lemma_block_some(data, at, p.bottleneck, out, q.bottleneck, out, 1, true);
        }
    } else {
        assert(film_ungrouped(p.films[k - 4]));
        if let Some((shift, _)) = p.films[k - 4] {
            let a = amounts(film_dim(p, k - 4), shift);
            let b = amounts(film_dim(q, k - 4), shift);
            lemma_counts(p.condition, a, 1, true);
            lemma_block_some(data, at, p.condition, a, q.condition, b, 1, true);
        }
    }
}

/// The kept weights of parts.
proof fn lemma_layer_some<S>(p: LayerPlan<S>, q: LayerPlan<S>, data: Seq<S>, pos: int, k: nat)
    requires
        layer_like(q, p),
        k <= 12,
        0 <= pos,
        pos + part_start(p, k) <= data.len(),
    ensures
        some_of(layer_cut(p, q, data, pos, k), data, pos, pos + part_start(p, k)),
    decreases k,
{
    if k == 0 {
        lemma_none(data, pos, pos);
    } else {
        let j = (k - 1) as nat;
        lemma_layer_some(p, q, data, pos, j);
        lemma_part_some(p, q, data, pos, k - 1);
        lemma_join(
            layer_cut(p, q, data, pos, j),
            part_cut(p, q, data, pos, k - 1),
            data,
            pos,
            pos + part_start(p, j),
            pos + part_start(p, k),
        );
    }
}

/// The kept weights of layers.
proof fn lemma_layers_some<S>(
    p: Seq<LayerPlan<S>>,
    q: Seq<LayerPlan<S>>,
    data: Seq<S>,
    pos: int,
    k: nat,
)
    requires
        k <= p.len(),
        p.len() == q.len(),
        forall|i: int| 0 <= i < p.len() ==> layer_like(q[i], #[trigger] p[i]),
        0 <= pos,
        pos + layers_start(p, k) <= data.len(),
    ensures
        some_of(layers_cut(p, q, data, pos, k), data, pos, pos + layers_start(p, k)),
    decreases k,
{
    if k == 0 {
        lemma_none(data, pos, pos);
    } else {
        let j = (k - 1) as nat;
        let at = pos + layers_start(p, j);
        lemma_layers_some(p, q, data, pos, j);
        assert(layer_like(q[k - 1], p[k - 1]));
        lemma_layer_some(p[k - 1], q[k - 1], data, at, 12);
        lemma_join(
            layers_cut(p, q, data, pos, j),
            layer_cut(p[k - 1], q[k - 1], data, at, 12),
            data,
            pos,
            at,
            pos + layers_start(p, k),
        );
    }
}

/// The kept weights of a stack.
proof fn lemma_array_some<S>(p: ArrayPlan<S>, q: ArrayPlan<S>, data: Seq<S>, pos: int)
    requires
        array_like(q, p),
        0 <= pos,
        pos + array_count(p) <= data.len(),
    ensures
        some_of(array_cut(p, q, data, pos), data, pos, pos + array_count(p)),
{
    let n = p.layers.len();
    lemma_counts(p.input, p.channels, 1, false);
    lemma_counts(p.head_rows, p.head_size, 1, p.head_bias);
    let first = block(data, pos, p.input, p.channels, q.input, q.channels, 1, false);
    let at = pos + array_start(p, 0);
    let middle = layers_cut(p.layers, q.layers, data, at, n);
    let end = pos + array_start(p, n);
    let last = block(
        data,
        end,
        p.head_rows,
        p.head_size,
        q.head_rows,
        q.head_size,
        1,
        p.head_bias,
    );
    lemma_block_some(data, pos, p.input, p.channels, q.input, q.channels, 1, false);
    lemma_layers_some(p.layers, q.layers, data, at, n);
    lemma_block_some(
        data,
        end,
        p.head_rows,
        p.head_size,
        q.head_rows,
        q.head_size,
        1,
        p.head_bias,
    );
    lemma_join(first, middle, data, pos, at, end);
    lemma_join(first + middle, last, data, pos, end, pos + array_count(p));
}

/// The kept weights of stacks.
proof fn lemma_stacks_some<S>(
    p: Seq<ArrayPlan<S>>,
    q: Seq<ArrayPlan<S>>,
    data: Seq<S>,
    k: nat,
)
    requires
        k <= p.len(),
        p.len() == q.len(),
        forall|i: int| 0 <= i < p.len() ==> array_like(q[i], #[trigger] p[i]),
        stacks_start(p, k) <= data.len(),
    ensures
        some_of(stacks_cut(p, q, data, k), data, 0, stacks_start(p, k) as int),
    decreases k,
{
    if k == 0 {
        lemma_none(data, 0, 0);
    } else {
        let j = (k - 1) as nat;
        let at = stacks_start(p, j) as int;
        lemma_stacks_some(p, q, data, j);
        assert(array_like(q[k - 1], p[k - 1]));
        lemma_array_some(p[k - 1], q[k - 1], data, at);
        lemma_join(
            stacks_cut(p, q, data, j),
            array_cut(p[k - 1], q[k - 1], data, at),
            data,
            0,
            at,
            stacks_start(p, k) as int,
        );
    }
}

/// A stack that can be reduced has the shape of the same stack with other
/// channels.
proof fn lemma_stack_like<S>(full: ArraySpec<S>, slim: ArraySpec<S>)
    requires
        array_spec_wf(full),
        slim_error(full) is None,
        resized(full, slim),
    ensures
        array_like(array_plan(slim), array_plan(full)),
{
    let p = array_plan(full);
    let q = array_plan(slim);
    assert forall|li: int| 0 <= li < p.layers.len() implies layer_like(
        q.layers[li],
        #[trigger] p.layers[li],
    ) by {
        let a = layer_plan(full, li);
        assert(a.films =~= layer_plan(slim, li).films);
        assert forall|k: int| 0 <= k < 8 implies film_ungrouped(#[trigger] a.films[k]) by {
            assert(a.films[k] == slot_plan(full, k));
            assert(full.films[k].active ==> full.films[k].groups == 1);
        }
    }
}

/// The weights of a network with other channels are weights of the full one, in
/// their order, with some left out.
pub proof fn kept_weights_are_some_of_all<S: Scalar>(
    full: Seq<ArraySpec<S>>,
    slim: Seq<ArraySpec<S>>,
    data: Seq<S>,
)
    requires
        can_cut(full),
        all_resized(full, slim),
        slimmed_weights(full, slim, data) is Ok,
    ensures
        some_of(slimmed_weights(full, slim, data)->Ok_0, data, 0, data.len() as int),
{
    let p = array_plans(full);
    let q = array_plans(slim);
    let n = full.len();
    let end = stacks_start(p, n) as int;
    assert forall|i: int| 0 <= i < n implies array_like(q[i], #[trigger] p[i]) by {
        assert(resized(full[i], slim[i]));
        lemma_stack_like(full[i], slim[i]);
    }
    lemma_stacks_some(p, q, data, n);
    lemma_stretch(data, end, 1, data.len() as int);
    lemma_join(
        stacks_cut(p, q, data, n),
        data.subrange(end, end + 1),
        data,
        0,
        end,
        data.len() as int,
    );
    assert(net_cut(full, slim, data) =~= stacks_cut(p, q, data, n) + data.subrange(end, end + 1));
}

/// With the channels of the full network all weights are kept.
pub proof fn full_size_keeps_all<S: Scalar>(full: Seq<ArraySpec<S>>, data: Seq<S>)
    requires
        can_cut(full),
        slimmed_weights(full, full, data) is Ok,
    ensures
        slimmed_weights(full, full, data)->Ok_0 == data,
{
    assert(all_resized(full, full));
    assert forall|i: int| 0 <= i < full.len() implies array_within(
        array_plan(full[i]),
        array_plan(#[trigger] full[i]),
    ) by {
        lemma_stack_like(full[i], full[i]);
    }
    kept_weights_are_enough(full, full, data);
    kept_weights_are_some_of_all(full, full, data);
    let kept = net_cut(full, full, data);
    let places = choose|places: Seq<int>| stand_at(kept, data, places, 0, data.len() as int);
    assert forall|j: int| 0 <= j < data.len() implies #[trigger] kept[j] == data[j] by {
        lemma_places_low(places, data.len() as int, j);
        lemma_places_high(places, data.len() as int, j);
    }
    assert(kept =~= data);
}

/// Ascending places from zero on are at least as far as they are many.
proof fn lemma_places_low(places: Seq<int>, n: int, j: int)
    requires
        0 <= j < places.len(),
        forall|i: int| 0 <= i < places.len() ==> 0 <= #[trigger] places[i] < n,
        forall|i: int, k: int|
            0 <= i < k < places.len() ==> #[trigger] places[i] < #[trigger] places[k],
    ensures
        j <= places[j],
    decreases j,
{
    if j > 0 {
        lemma_places_low(places, n, j - 1);
        assert(places[j - 1] < places[j]);
    }
}

/// Ascending places below `n` leave room for those after them.
proof fn lemma_places_high(places: Seq<int>, n: int, j: int)
    requires
        0 <= j < places.len(),
        places.len() == n,
        forall|i: int| 0 <= i < places.len() ==> 0 <= #[trigger] places[i] < n,
        forall|i: int, k: int|
            0 <= i < k < places.len() ==> #[trigger] places[i] < #[trigger] places[k],
    ensures
        places[j] <= j,
    decreases n - j,
{
    if j < n - 1 {
        lemma_places_high(places, n, j + 1);
        assert(places[j] < places[j + 1]);
    }
}

} // verus!
