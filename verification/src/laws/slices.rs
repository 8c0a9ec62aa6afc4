//! A reduced network is a slice of the full one: its weights are those of the
//! first inputs and outputs of each part.

use crate::num::Scalar;
use crate::pure::array_config::ArraySpec;
use crate::pure::array_setup::lemma_layers_start;
use crate::pure::assemble::array_plan;
use crate::pure::conv1d::{dilated_count, dilated_from, Dilated};
use crate::pure::film::{amounts, Modulation};
use crate::pure::layer::{z_rows, LayerModel};
use crate::pure::layer_array::ArrayModel;
use crate::pure::layer_setup::lemma_part_start;
use crate::pure::net::NetModel;
use crate::pure::net_build::{array_plans, lemma_stacks_start, net_count, net_from, stacks_start};
use crate::pure::nn::{affine_count, affine_from, same_group, Affine};
use crate::pure::plan::{
    array_count, array_from, array_start, film_dim, layer_count, layer_from, layers_start,
    part_count, part_start, planned_film, ArrayPlan, LayerPlan,
};
use crate::pure::slim_extract::{block, block_count, cut};
use crate::pure::slim_weights::{array_cut, layer_cut, layers_cut, net_cut, part_cut, stacks_cut};
use vstd::arithmetic::div_mod::*;
use vstd::arithmetic::mul::*;
use vstd::prelude::*;

verus! {

// What a slice is ============================================================

/// A pointwise convolution is what another makes of its first inputs to its
/// first outputs.
pub open spec fn affine_slice<S>(a: Affine<S>, b: Affine<S>) -> bool {
    &&& a.inputs <= b.inputs
    &&& a.outputs <= b.outputs
    &&& forall|o: int, i: int|
        0 <= o < a.outputs && 0 <= i < a.inputs ==> #[trigger] a.weight[o][i] == b.weight[o][i]
    &&& forall|o: int| 0 <= o < a.outputs ==> #[trigger] a.offset[o] == b.offset[o]
}

/// A convolution is what another makes of its first inputs to its first
/// outputs, with the same taps.
pub open spec fn dilated_slice<S>(a: Dilated<S>, b: Dilated<S>) -> bool {
    &&& a.inputs <= b.inputs
    &&& a.outputs <= b.outputs
    &&& a.dilation == b.dilation
    &&& a.weight.len() == b.weight.len()
    &&& forall|k: int, o: int, i: int|
        0 <= k < a.weight.len() && 0 <= o < a.outputs && 0 <= i < a.inputs
            ==> #[trigger] a.weight[k][o][i] == b.weight[k][o][i]
    &&& forall|o: int| 0 <= o < a.outputs ==> #[trigger] a.offset[o] == b.offset[o]
}

/// An optional projection is a slice of another.
pub open spec fn projection_slice<S>(a: Option<Affine<S>>, b: Option<Affine<S>>) -> bool {
    match (a, b) {
        (Some(x), Some(y)) => affine_slice(x, y),
        (None, None) => true,
        _ => false,
    }
}

/// The amounts of a modulation are the first of those of another.
pub open spec fn film_slice<S>(a: Option<Modulation<S>>, b: Option<Modulation<S>>) -> bool {
    match (a, b) {
        (Some(x), Some(y)) => {
            &&& affine_slice(x.conv, y.conv)
            &&& x.dim <= y.dim
            &&& x.shift == y.shift
        },
        (None, None) => true,
        _ => false,
    }
}

/// A layer is a slice of another.
pub open spec fn layer_slice<S>(a: LayerModel<S>, b: LayerModel<S>) -> bool {
    &&& dilated_slice(a.conv, b.conv)
    &&& affine_slice(a.mixin, b.mixin)
    &&& projection_slice(a.layer1x1, b.layer1x1)
    &&& projection_slice(a.head1x1, b.head1x1)
    &&& a.act == b.act
    &&& a.secondary == b.secondary
    &&& a.gating == b.gating
    &&& a.bottleneck <= b.bottleneck
    &&& a.channels <= b.channels
    &&& film_slice(a.conv_pre, b.conv_pre)
    &&& film_slice(a.conv_post, b.conv_post)
    &&& film_slice(a.mixin_pre, b.mixin_pre)
    &&& film_slice(a.mixin_post, b.mixin_post)
    &&& film_slice(a.act_pre, b.act_pre)
    &&& film_slice(a.act_post, b.act_post)
    &&& film_slice(a.layer1x1_post, b.layer1x1_post)
    &&& film_slice(a.head1x1_post, b.head1x1_post)
}

/// A stack is a slice of another.
pub open spec fn array_slice<S>(a: ArrayModel<S>, b: ArrayModel<S>) -> bool {
    &&& affine_slice(a.rechannel, b.rechannel)
    &&& a.layers.len() == b.layers.len()
    &&& forall|i: int| 0 <= i < a.layers.len() ==> layer_slice(#[trigger] a.layers[i], b.layers[i])
    &&& dilated_slice(a.head, b.head)
}

// Rows =======================================================================

/// Where the kept numbers of row `r` come from.
pub proof fn lemma_cut<S>(data: Seq<S>, pos: int, row: nat, keep: nat, rows: nat)
    requires
        keep <= row,
        0 <= pos,
        pos + rows * row <= data.len(),
    ensures
        cut(data, pos, row, keep, rows).len() == rows * keep,
        forall|r: int, j: int|
            0 <= r < rows && 0 <= j < keep ==> #[trigger] cut(data, pos, row, keep, rows)[r * keep
                + j] == data[pos + r * row + j],
    decreases rows,
{
    if rows == 0 {
        lemma_mul_basics(keep as int);
    } else {
        let n = (rows - 1) as nat;
        assert(n * row + row == rows * row) by (nonlinear_arith)
            requires
                n == rows - 1,
        ;
        assert(n * keep + keep == rows * keep) by (nonlinear_arith)
            requires
                n == rows - 1,
        ;
        lemma_mul_nonnegative(n as int, row as int);
        lemma_cut(data, pos, row, keep, n);
        let whole = cut(data, pos, row, keep, rows);
        let first = cut(data, pos, row, keep, n);
        assert forall|r: int, j: int| 0 <= r < rows && 0 <= j < keep implies #[trigger] whole[r
            * keep + j] == data[pos + r * row + j] by {
            if r < n {
                lemma_row_inside(r, j, n as int, keep as int);
                assert(first[r * keep + j] == data[pos + r * row + j]);
            }
        }
    }
}

/// A number of an earlier row stands before the later rows.
proof fn lemma_row_inside(r: int, j: int, rows: int, len: int)
    requires
        0 <= r < rows,
        0 <= j < len,
    ensures
        0 <= r * len + j < rows * len,
{
    assert(0 <= r * len + j < rows * len) by (nonlinear_arith)
        requires
            0 <= r < rows,
            0 <= j < len,
    ;
}

/// `small` holds `part` from `at` on.
#[verifier::opaque]
pub open spec fn holds<S>(small: Seq<S>, at: int, part: Seq<S>) -> bool {
    &&& 0 <= at
    &&& at + part.len() <= small.len()
    &&& forall|j: int| 0 <= j < part.len() ==> small[at + j] == #[trigger] part[j]
}

/// How many weights the first inputs and outputs of a convolution have.
proof fn lemma_block_len<S>(
    data: Seq<S>,
    pos: int,
    full_in: nat,
    full_out: nat,
    slim_in: nat,
    slim_out: nat,
    taps: nat,
    bias: bool,
)
    requires
        slim_in <= full_in,
        slim_out <= full_out,
        0 <= pos,
        pos + block_count(full_in, full_out, taps, bias) <= data.len(),
    ensures
        block(data, pos, full_in, full_out, slim_in, slim_out, taps, bias).len() == block_count(
            slim_in,
            slim_out,
            taps,
            bias,
        ),
        forall|r: int, j: int|
            0 <= r < slim_out && 0 <= j < slim_in * taps ==> #[trigger] block(
                data,
                pos,
                full_in,
                full_out,
                slim_in,
                slim_out,
                taps,
                bias,
            )[r * (slim_in * taps) + j] == data[pos + r * (full_in * taps) + j],
        bias ==> forall|r: int|
            0 <= r < slim_out ==> #[trigger] block(
                data,
                pos,
                full_in,
                full_out,
                slim_in,
                slim_out,
                taps,
                bias,
            )[slim_out * (slim_in * taps) + r] == data[pos + full_out * (full_in * taps) + r],
{
    let row = full_in * taps;
    let keep = slim_in * taps;
    assert(keep <= row) by (nonlinear_arith)
        requires
            keep == slim_in * taps,
            row == full_in * taps,
            slim_in <= full_in,
    ;
    assert(slim_out * row <= full_out * row) by (nonlinear_arith)
        requires
            slim_out <= full_out,
    ;
    lemma_cut(data, pos, row, keep, slim_out);
    let b = block(data, pos, full_in, full_out, slim_in, slim_out, taps, bias);
    let c = cut(data, pos, row, keep, slim_out);
    assert forall|r: int, j: int| 0 <= r < slim_out && 0 <= j < keep implies #[trigger] b[r * keep
        + j] == data[pos + r * row + j] by {
        lemma_row_inside(r, j, slim_out as int, keep as int);
        assert(c[r * keep + j] == data[pos + r * row + j]);
    }
}

/// A pointwise convolution with the kept weights.
proof fn lemma_affine_slice<S: Scalar>(
    small: Seq<S>,
    at: int,
    data: Seq<S>,
    pos: int,
    full_in: nat,
    full_out: nat,
    slim_in: nat,
    slim_out: nat,
    bias: bool,
)
    requires
        slim_in <= full_in,
        slim_out <= full_out,
        0 <= pos,
        pos + block_count(full_in, full_out, 1, bias) <= data.len(),
        holds(small, at, block(data, pos, full_in, full_out, slim_in, slim_out, 1, bias)),
    ensures
        affine_slice(
            affine_from(small, at, slim_in, slim_out, bias, 1),
            affine_from(data, pos, full_in, full_out, bias, 1),
        ),
{
    reveal(holds);
    let b = block(data, pos, full_in, full_out, slim_in, slim_out, 1, bias);
    lemma_block_len(data, pos, full_in, full_out, slim_in, slim_out, 1, bias);
    let p = affine_from(small, at, slim_in, slim_out, bias, 1);
    let q = affine_from(data, pos, full_in, full_out, bias, 1);
    assert forall|o: int, i: int| 0 <= o < slim_out && 0 <= i < slim_in implies #[trigger] p.weight[o][i]
        == q.weight[o][i] by {
        lemma_row_inside(o, i, slim_out as int, slim_in as int);
        assert(slim_in * 1 == slim_in && full_in * 1 == full_in);
        assert(b[o * (slim_in * 1) + i] == data[pos + o * (full_in * 1) + i]);
        lemma_small_mod(i as nat, slim_in);
        lemma_small_mod(i as nat, full_in);
        lemma_one_group(slim_in, slim_out, o, i);
        lemma_one_group(full_in, full_out, o, i);
    }
    if bias {
        assert forall|o: int| 0 <= o < slim_out implies #[trigger] p.offset[o] == q.offset[o] by {
            assert(slim_in * 1 == slim_in && full_in * 1 == full_in);
            assert(b[slim_out * (slim_in * 1) + o] == data[pos + full_out * (full_in * 1) + o]);
        }
    }
}

/// Without groups every output reads every input.
proof fn lemma_one_group(inputs: nat, outputs: nat, o: int, i: int)
    requires
        0 <= o < outputs,
        0 <= i < inputs,
    ensures
        same_group((outputs / 1) as int, (inputs / 1) as int, o, i),
{
    lemma_basic_div(o, outputs as int);
    lemma_basic_div(i, inputs as int);
}

/// A convolution with the kept weights.
proof fn lemma_dilated_slice<S: Scalar>(
    small: Seq<S>,
    at: int,
    data: Seq<S>,
    pos: int,
    full_in: nat,
    full_out: nat,
    slim_in: nat,
    slim_out: nat,
    taps: nat,
    bias: bool,
    dilation: nat,
)
    requires
        slim_in <= full_in,
        slim_out <= full_out,
        0 <= pos,
        pos + block_count(full_in, full_out, taps, bias) <= data.len(),
        holds(small, at, block(data, pos, full_in, full_out, slim_in, slim_out, taps, bias)),
    ensures
        dilated_slice(
            dilated_from(small, at, slim_in, slim_out, taps, bias, dilation, 1),
            dilated_from(data, pos, full_in, full_out, taps, bias, dilation, 1),
        ),
{
    reveal(holds);
    let b = block(data, pos, full_in, full_out, slim_in, slim_out, taps, bias);
    lemma_block_len(data, pos, full_in, full_out, slim_in, slim_out, taps, bias);
    let p = dilated_from(small, at, slim_in, slim_out, taps, bias, dilation, 1);
    let q = dilated_from(data, pos, full_in, full_out, taps, bias, dilation, 1);
    assert forall|k: int, o: int, i: int|
        0 <= k < taps && 0 <= o < slim_out && 0 <= i < slim_in implies #[trigger] p.weight[k][o][i]
        == q.weight[k][o][i] by {
        let j = i * taps + k;
        lemma_row_inside(i, k, slim_in as int, taps as int);
        lemma_row_inside(o, j, slim_out as int, (slim_in * taps) as int);
        assert(b[o * (slim_in * taps) + j] == data[pos + o * (full_in * taps) + j]);
        assert((o * slim_in + i) * taps + k == o * (slim_in * taps) + j) by (nonlinear_arith)
            requires
                j == i * taps + k,
        ;
        assert((o * full_in + i) * taps + k == o * (full_in * taps) + j) by (nonlinear_arith)
            requires
                j == i * taps + k,
        ;
        lemma_small_mod(i as nat, slim_in);
        lemma_small_mod(i as nat, full_in);
        lemma_one_group(slim_in, slim_out, o, i);
        lemma_one_group(full_in, full_out, o, i);
    }
    if bias {
        assert forall|o: int| 0 <= o < slim_out implies #[trigger] p.offset[o] == q.offset[o] by {
            assert(b[slim_out * (slim_in * taps) + o] == data[pos + full_out * (full_in * taps)
                + o]);
            lemma_mul_is_associative(slim_out as int, slim_in as int, taps as int);
            lemma_mul_is_associative(full_out as int, full_in as int, taps as int);
        }
    }
}

// Layers =====================================================================

/// The shape of a layer is that of another with fewer channels, and nothing in
/// it is grouped.
pub open spec fn layer_within<S>(q: LayerPlan<S>, p: LayerPlan<S>) -> bool {
    &&& layer_like(q, p)
    &&& q.channels <= p.channels
    &&& q.bottleneck <= p.bottleneck
}

/// The shape of a layer is that of another with other channels, and nothing in
/// it is grouped.
pub open spec fn layer_like<S>(q: LayerPlan<S>, p: LayerPlan<S>) -> bool {
    &&& q == (LayerPlan { channels: q.channels, bottleneck: q.bottleneck, ..p })
    &&& p.groups_input == 1
    &&& p.groups_mixin == 1
    &&& p.layer1x1 matches Some(groups) ==> groups == 1
    &&& p.head1x1 matches Some((_, groups)) ==> groups == 1
    &&& p.films.len() == 8
    &&& forall|k: int| 0 <= k < 8 ==> film_ungrouped(#[trigger] p.films[k])
}

/// A modulation has no groups.
pub open spec fn film_ungrouped(f: Option<(bool, nat)>) -> bool {
    f matches Some((_, groups)) ==> groups == 1
}

/// The two ways to count weights agree where there are no groups.
pub proof fn lemma_counts(inputs: nat, outputs: nat, taps: nat, bias: bool)
    ensures
        affine_count(inputs, outputs, bias, 1) == block_count(inputs, outputs, 1, bias),
        dilated_count(inputs, outputs, taps, bias, 1) == block_count(inputs, outputs, taps, bias),
{
    assert(inputs / 1 == inputs);
    assert(inputs * 1 == inputs);
    lemma_mul_is_associative(outputs as int, inputs as int, taps as int);
}

/// What is kept of a part is what the smaller part reads.
proof fn lemma_part_len<S>(p: LayerPlan<S>, q: LayerPlan<S>, data: Seq<S>, pos: int, k: int)
    requires
        layer_within(q, p),
        0 <= k < 12,
        0 <= pos,
        pos + part_start(p, k as nat) + part_count(p, k) <= data.len(),
    ensures
        part_cut(p, q, data, pos, k).len() == part_count(q, k),
{
    let at = pos + part_start(p, k as nat);
    let full = z_rows(p.gating, p.bottleneck);
    let slim = z_rows(q.gating, q.bottleneck);
    if k == 0 {
        lemma_counts(p.channels, full, p.kernel, true);
        lemma_counts(q.channels, slim, p.kernel, true);
        lemma_block_len(data, at, p.channels, full, q.channels, slim, p.kernel, true);
    } else if k == 1 {
        lemma_counts(p.condition, full, 1, false);
        lemma_counts(q.condition, slim, 1, false);
        lemma_block_len(data, at, p.condition, full, q.condition, slim, 1, false);
    } else if k == 2 {
        if p.layer1x1 is Some {
            lemma_counts(p.bottleneck, p.channels, 1, true);
            lemma_counts(q.bottleneck, q.channels, 1, true);
            lemma_block_len(
                data,
                at,
                p.bottleneck,
                p.channels,
                q.bottleneck,
                q.channels,
                1,
                true,
            );
        }
    } else if k == 3 {
        if let Some((out, _)) = p.head1x1 {
            lemma_counts(p.bottleneck, out, 1, true);
            lemma_counts(q.bottleneck, out, 1, true);
            lemma_block_len(data, at, p.bottleneck, out, q.bottleneck, out, 1, true);
        }
    } else {
        assert(film_ungrouped(p.films[k - 4]));
        if let Some((shift, _)) = p.films[k - 4] {
            let a = amounts(film_dim(p, k - 4), shift);
            let b = amounts(film_dim(q, k - 4), shift);
            lemma_counts(p.condition, a, 1, true);
            lemma_counts(q.condition, b, 1, true);
            lemma_block_len(data, at, p.condition, a, q.condition, b, 1, true);
        }
    }
}

/// What is kept of parts is what the smaller parts read.
proof fn lemma_layer_cut_len<S>(p: LayerPlan<S>, q: LayerPlan<S>, data: Seq<S>, pos: int, k: nat)
    requires
        layer_within(q, p),
        k <= 12,
        0 <= pos,
        pos + part_start(p, k) <= data.len(),
    ensures
        layer_cut(p, q, data, pos, k).len() == part_start(q, k),
    decreases k,
{
    if k > 0 {
        lemma_layer_cut_len(p, q, data, pos, (k - 1) as nat);
        lemma_part_len(p, q, data, pos, k - 1);
    }
}

/// The kept weights of a layer stand in the order of its parts.
proof fn lemma_layer_cut<S>(
    p: LayerPlan<S>,
    q: LayerPlan<S>,
    data: Seq<S>,
    pos: int,
    k: nat,
    i: int,
)
    requires
        layer_within(q, p),
        0 <= i < k,
        k <= 12,
        0 <= pos,
        pos + part_start(p, k) <= data.len(),
    ensures
        holds(
            layer_cut(p, q, data, pos, k),
            part_start(q, i as nat) as int,
            part_cut(p, q, data, pos, i),
        ),
    decreases k,
{
    let j = (k - 1) as nat;
    let before = layer_cut(p, q, data, pos, j);
    let last = part_cut(p, q, data, pos, k - 1);
    lemma_layer_cut_len(p, q, data, pos, j);
    lemma_holds_both(before, last);
    if i < j {
        lemma_layer_cut(p, q, data, pos, j, i);
        lemma_holds(
            before + last,
            0,
            before,
            part_start(q, i as nat) as int,
            part_cut(p, q, data, pos, i),
        );
    }
}

/// Two pieces in a row hold both.
proof fn lemma_holds_both<S>(a: Seq<S>, b: Seq<S>)
    ensures
        holds(a + b, 0, a),
        holds(a + b, a.len() as int, b),
{
    reveal(holds);
}

/// What stands in a piece stands in what holds the piece.
proof fn lemma_holds<S>(small: Seq<S>, at: int, piece: Seq<S>, inner: int, part: Seq<S>)
    requires
        holds(small, at, piece),
        holds(piece, inner, part),
    ensures
        holds(small, at + inner, part),
{
    reveal(holds);
    assert forall|j: int| 0 <= j < part.len() implies small[at + inner + j]
        == #[trigger] part[j] by {
        assert(piece[inner + j] == part[j]);
    }
}

/// A modulation with the kept weights.
proof fn lemma_film_slice<S: Scalar>(
    p: LayerPlan<S>,
    q: LayerPlan<S>,
    small: Seq<S>,
    at: int,
    data: Seq<S>,
    pos: int,
    slot: nat,
)
    requires
        layer_within(q, p),
        slot < 8,
        0 <= pos,
        pos + layer_count(p) <= data.len(),
        holds(small, at, layer_cut(p, q, data, pos, 12)),
    ensures
        film_slice(planned_film(q, small, at, slot), planned_film(p, data, pos, slot)),
{
    let k = slot as int + 4;
    lemma_layer_cut(p, q, data, pos, 12, k);
    let part = part_cut(p, q, data, pos, k);
    lemma_holds(
        small,
        at,
        layer_cut(p, q, data, pos, 12),
        part_start(q, k as nat) as int,
        part,
    );
    lemma_part_start(p, (k + 1) as nat, 12);
    assert(film_ungrouped(p.films[slot as int]));
    if let Some((shift, _)) = p.films[slot as int] {
        let a = amounts(film_dim(p, slot as int), shift);
        let b = amounts(film_dim(q, slot as int), shift);
        lemma_counts(p.condition, a, 1, true);
        lemma_affine_slice(
            small,
            at + part_start(q, k as nat),
            data,
            pos + part_start(p, k as nat),
            p.condition,
            a,
            q.condition,
            b,
            true,
        );
    }
}

/// A layer with the kept weights is a slice.
proof fn lemma_layer_slice<S: Scalar>(
    p: LayerPlan<S>,
    q: LayerPlan<S>,
    small: Seq<S>,
    at: int,
    data: Seq<S>,
    pos: int,
)
    requires
        layer_within(q, p),
        0 <= pos,
        pos + layer_count(p) <= data.len(),
        holds(small, at, layer_cut(p, q, data, pos, 12)),
    ensures
        layer_slice(layer_from(q, small, at), layer_from(p, data, pos)),
{
    let piece = layer_cut(p, q, data, pos, 12);
    let full = z_rows(p.gating, p.bottleneck);
    let slim = z_rows(q.gating, q.bottleneck);
    lemma_layer_cut(p, q, data, pos, 12, 0);
    assert(part_start(p, 0) == 0 && part_start(q, 0) == 0);
    lemma_holds(small, at, piece, 0, part_cut(p, q, data, pos, 0));
    lemma_part_start(p, 1, 12);
    lemma_counts(p.channels, full, p.kernel, true);
    assert(part_start(p, 1) == part_count(p, 0));
    lemma_dilated_slice(
        small,
        at,
        data,
        pos,
        p.channels,
        full,
        q.channels,
        slim,
        p.kernel,
        true,
        p.dilation,
    );
    lemma_layer_cut(p, q, data, pos, 12, 1);
    lemma_holds(small, at, piece, part_start(q, 1) as int, part_cut(p, q, data, pos, 1));
    lemma_part_start(p, 2, 12);
    lemma_counts(p.condition, full, 1, false);
    lemma_affine_slice(
        small,
        at + part_start(q, 1),
        data,
        pos + part_start(p, 1),
        p.condition,
        full,
        q.condition,
        slim,
        false,
    );
    lemma_layer_cut(p, q, data, pos, 12, 2);
    lemma_holds(small, at, piece, part_start(q, 2) as int, part_cut(p, q, data, pos, 2));
    lemma_part_start(p, 3, 12);
    if p.layer1x1 is Some {
        lemma_counts(p.bottleneck, p.channels, 1, true);
        lemma_affine_slice(
            small,
            at + part_start(q, 2),
            data,
            pos + part_start(p, 2),
            p.bottleneck,
            p.channels,
            q.bottleneck,
            q.channels,
            true,
        );
    }
    lemma_layer_cut(p, q, data, pos, 12, 3);
    lemma_holds(small, at, piece, part_start(q, 3) as int, part_cut(p, q, data, pos, 3));
    lemma_part_start(p, 4, 12);
    if let Some((out, _)) = p.head1x1 {
        lemma_counts(p.bottleneck, out, 1, true);
        lemma_affine_slice(
            small,
            at + part_start(q, 3),
            data,
            pos + part_start(p, 3),
            p.bottleneck,
            out,
            q.bottleneck,
            out,
            true,
        );
    }
    lemma_film_slice(p, q, small, at, data, pos, 0);
    lemma_film_slice(p, q, small, at, data, pos, 1);
    lemma_film_slice(p, q, small, at, data, pos, 2);
    lemma_film_slice(p, q, small, at, data, pos, 3);
    lemma_film_slice(p, q, small, at, data, pos, 4);
    lemma_film_slice(p, q, small, at, data, pos, 5);
    lemma_film_slice(p, q, small, at, data, pos, 6);
    lemma_film_slice(p, q, small, at, data, pos, 7);
}

// Stacks and networks ========================================================

/// The shape of a stack is that of another with fewer channels, and nothing in
/// it is grouped.
pub open spec fn array_within<S>(q: ArrayPlan<S>, p: ArrayPlan<S>) -> bool {
    &&& q.input <= p.input
    &&& q.channels <= p.channels
    &&& q.layers.len() == p.layers.len()
    &&& forall|i: int| 0 <= i < p.layers.len() ==> layer_within(q.layers[i], #[trigger] p.layers[i])
    &&& q.head_rows <= p.head_rows
    &&& q.head_size <= p.head_size
    &&& q.head_kernel == p.head_kernel
    &&& p.head_kernel == 1
    &&& q.head_dilation == p.head_dilation
    &&& q.head_bias == p.head_bias
}

/// What is kept of layers is what the smaller layers read.
proof fn lemma_layers_cut_len<S>(
    p: Seq<LayerPlan<S>>,
    q: Seq<LayerPlan<S>>,
    data: Seq<S>,
    pos: int,
    k: nat,
)
    requires
        k <= p.len(),
        p.len() == q.len(),
        forall|i: int| 0 <= i < p.len() ==> layer_within(q[i], #[trigger] p[i]),
        0 <= pos,
        pos + layers_start(p, k) <= data.len(),
    ensures
        layers_cut(p, q, data, pos, k).len() == layers_start(q, k),
    decreases k,
{
    if k > 0 {
        let j = (k - 1) as nat;
        lemma_layers_cut_len(p, q, data, pos, j);
        assert(layer_within(q[k - 1], p[k - 1]));
        lemma_layer_cut_len(p[k - 1], q[k - 1], data, pos + layers_start(p, j), 12);
    }
}

/// The kept weights of layers stand in their order.
proof fn lemma_layers_cut<S>(
    p: Seq<LayerPlan<S>>,
    q: Seq<LayerPlan<S>>,
    data: Seq<S>,
    pos: int,
    k: nat,
    i: int,
)
    requires
        0 <= i < k,
        k <= p.len(),
        p.len() == q.len(),
        forall|e: int| 0 <= e < p.len() ==> layer_within(q[e], #[trigger] p[e]),
        0 <= pos,
        pos + layers_start(p, k) <= data.len(),
    ensures
        holds(
            layers_cut(p, q, data, pos, k),
            layers_start(q, i as nat) as int,
            layer_cut(p[i], q[i], data, pos + layers_start(p, i as nat), 12),
        ),
    decreases k,
{
    let j = (k - 1) as nat;
    let part = layer_cut(p[i], q[i], data, pos + layers_start(p, i as nat), 12);
    let before = layers_cut(p, q, data, pos, j);
    let last = layer_cut(p[k - 1], q[k - 1], data, pos + layers_start(p, j), 12);
    lemma_layers_cut_len(p, q, data, pos, j);
    lemma_holds_both(before, last);
    if i < j {
        lemma_layers_cut(p, q, data, pos, j, i);
        lemma_holds(before + last, 0, before, layers_start(q, i as nat) as int, part);
    }
}

/// What is kept of a stack is what the smaller stack reads.
proof fn lemma_array_cut_len<S>(p: ArrayPlan<S>, q: ArrayPlan<S>, data: Seq<S>, pos: int)
    requires
        array_within(q, p),
        0 <= pos,
        pos + array_count(p) <= data.len(),
    ensures
        array_cut(p, q, data, pos).len() == array_count(q),
        holds(
            array_cut(p, q, data, pos),
            0,
            block(data, pos, p.input, p.channels, q.input, q.channels, 1, false),
        ),
        holds(
            array_cut(p, q, data, pos),
            array_start(q, 0) as int,
            layers_cut(p.layers, q.layers, data, pos + array_start(p, 0), p.layers.len()),
        ),
        holds(
            array_cut(p, q, data, pos),
            array_start(q, q.layers.len()) as int,
            block(
                data,
                pos + array_start(p, p.layers.len()),
                p.head_rows,
                p.head_size,
                q.head_rows,
                q.head_size,
                1,
                p.head_bias,
            ),
        ),
{
    let n = p.layers.len();
    lemma_counts(p.input, p.channels, 1, false);
    lemma_counts(q.input, q.channels, 1, false);
    lemma_counts(p.head_rows, p.head_size, 1, p.head_bias);
    lemma_counts(q.head_rows, q.head_size, 1, p.head_bias);
    lemma_block_len(data, pos, p.input, p.channels, q.input, q.channels, 1, false);
    lemma_layers_cut_len(p.layers, q.layers, data, pos + array_start(p, 0), n);
    lemma_block_len(
        data,
        pos + array_start(p, n),
        p.head_rows,
        p.head_size,
        q.head_rows,
        q.head_size,
        1,
        p.head_bias,
    );
    let first = block(data, pos, p.input, p.channels, q.input, q.channels, 1, false);
    let middle = layers_cut(p.layers, q.layers, data, pos + array_start(p, 0), n);
    let last = block(
        data,
        pos + array_start(p, n),
        p.head_rows,
        p.head_size,
        q.head_rows,
        q.head_size,
        1,
        p.head_bias,
    );
    lemma_holds_both(first, middle);
    lemma_holds_both(first + middle, last);
    lemma_holds(first + middle + last, 0, first + middle, 0, first);
    lemma_holds(first + middle + last, 0, first + middle, first.len() as int, middle);
}

/// A layer of a stack with the kept weights is a slice.
proof fn lemma_array_layer_slice<S: Scalar>(
    p: ArrayPlan<S>,
    q: ArrayPlan<S>,
    small: Seq<S>,
    at: int,
    data: Seq<S>,
    pos: int,
    i: int,
)
    requires
        array_within(q, p),
        0 <= pos,
        pos + array_count(p) <= data.len(),
        holds(small, at, array_cut(p, q, data, pos)),
        0 <= i < p.layers.len(),
    ensures
        layer_slice(
            layer_from(q.layers[i], small, at + array_start(q, i as nat)),
            layer_from(p.layers[i], data, pos + array_start(p, i as nat)),
        ),
{
    let n = p.layers.len();
    let start = pos + array_start(p, 0);
    let middle = layers_cut(p.layers, q.layers, data, start, n);
    let part = layer_cut(
        p.layers[i],
        q.layers[i],
        data,
        start + layers_start(p.layers, i as nat),
        12,
    );
    lemma_array_cut_len(p, q, data, pos);
    lemma_holds(small, at, array_cut(p, q, data, pos), array_start(q, 0) as int, middle);
    lemma_layers_cut(p.layers, q.layers, data, start, n, i);
    lemma_holds(
        small,
        at + array_start(q, 0),
        middle,
        layers_start(q.layers, i as nat) as int,
        part,
    );
    assert(layer_within(q.layers[i], p.layers[i]));
    lemma_layers_start(p.layers, (i + 1) as nat, n);
    lemma_layer_slice(
        p.layers[i],
        q.layers[i],
        small,
        at + array_start(q, i as nat),
        data,
        pos + array_start(p, i as nat),
    );
}

/// The head of a stack with the kept weights is a slice.
proof fn lemma_array_head_slice<S: Scalar>(
    p: ArrayPlan<S>,
    q: ArrayPlan<S>,
    small: Seq<S>,
    at: int,
    data: Seq<S>,
    pos: int,
)
    requires
        array_within(q, p),
        0 <= pos,
        pos + array_count(p) <= data.len(),
        holds(small, at, array_cut(p, q, data, pos)),
    ensures
        dilated_slice(array_from(q, small, at).head, array_from(p, data, pos).head),
{
    let n = p.layers.len();
    let last = block(
        data,
        pos + array_start(p, n),
        p.head_rows,
        p.head_size,
        q.head_rows,
        q.head_size,
        1,
        p.head_bias,
    );
    lemma_array_cut_len(p, q, data, pos);
    lemma_counts(p.head_rows, p.head_size, 1, p.head_bias);
    lemma_holds(small, at, array_cut(p, q, data, pos), array_start(q, n) as int, last);
    lemma_dilated_slice(
        small,
        at + array_start(q, n),
        data,
        pos + array_start(p, n),
        p.head_rows,
        p.head_size,
        q.head_rows,
        q.head_size,
        1,
        p.head_bias,
        p.head_dilation,
    );
}

/// A stack with the kept weights is a slice.
proof fn lemma_array_slice<S: Scalar>(
    p: ArrayPlan<S>,
    q: ArrayPlan<S>,
    small: Seq<S>,
    at: int,
    data: Seq<S>,
    pos: int,
)
    requires
        array_within(q, p),
        0 <= pos,
        pos + array_count(p) <= data.len(),
        holds(small, at, array_cut(p, q, data, pos)),
    ensures
        array_slice(array_from(q, small, at), array_from(p, data, pos)),
{
    let first = block(data, pos, p.input, p.channels, q.input, q.channels, 1, false);
    assert(holds(array_cut(p, q, data, pos), 0, first)) by {
        lemma_array_cut_len(p, q, data, pos);
    }
    lemma_counts(p.input, p.channels, 1, false);
    lemma_holds(small, at, array_cut(p, q, data, pos), 0, first);
    lemma_affine_slice(
        small,
        at,
        data,
        pos,
        p.input,
        p.channels,
        q.input,
        q.channels,
        false,
    );
    let a = array_from(q, small, at);
    let b = array_from(p, data, pos);
    assert forall|i: int| 0 <= i < a.layers.len() implies layer_slice(
        #[trigger] a.layers[i],
        b.layers[i],
    ) by {
        lemma_array_layer_slice(p, q, small, at, data, pos, i);
    }
    lemma_array_head_slice(p, q, small, at, data, pos);
}

/// What is kept of stacks is what the smaller stacks read.
proof fn lemma_stacks_cut_len<S>(
    p: Seq<ArrayPlan<S>>,
    q: Seq<ArrayPlan<S>>,
    data: Seq<S>,
    k: nat,
)
    requires
        k <= p.len(),
        p.len() == q.len(),
        forall|i: int| 0 <= i < p.len() ==> array_within(q[i], #[trigger] p[i]),
        stacks_start(p, k) <= data.len(),
    ensures
        stacks_cut(p, q, data, k).len() == stacks_start(q, k),
    decreases k,
{
    if k > 0 {
        let j = (k - 1) as nat;
        lemma_stacks_cut_len(p, q, data, j);
        lemma_array_cut_len(p[k - 1], q[k - 1], data, stacks_start(p, j) as int);
    }
}

/// The kept weights of stacks stand in their order.
proof fn lemma_stacks_cut<S>(
    p: Seq<ArrayPlan<S>>,
    q: Seq<ArrayPlan<S>>,
    data: Seq<S>,
    k: nat,
    i: int,
)
    requires
        0 <= i < k,
        k <= p.len(),
        p.len() == q.len(),
        forall|e: int| 0 <= e < p.len() ==> array_within(q[e], #[trigger] p[e]),
        stacks_start(p, k) <= data.len(),
    ensures
        holds(
            stacks_cut(p, q, data, k),
            stacks_start(q, i as nat) as int,
            array_cut(p[i], q[i], data, stacks_start(p, i as nat) as int),
        ),
    decreases k,
{
    let j = (k - 1) as nat;
    let part = array_cut(p[i], q[i], data, stacks_start(p, i as nat) as int);
    let before = stacks_cut(p, q, data, j);
    let last = array_cut(p[k - 1], q[k - 1], data, stacks_start(p, j) as int);
    lemma_stacks_cut_len(p, q, data, j);
    lemma_holds_both(before, last);
    if i < j {
        lemma_stacks_cut(p, q, data, j, i);
        lemma_holds(before + last, 0, before, stacks_start(q, i as nat) as int, part);
    }
}

/// Each stack of `slim` is one of `full` with fewer channels, and nothing is
/// grouped.
pub open spec fn stacks_within<S>(slim: Seq<ArraySpec<S>>, full: Seq<ArraySpec<S>>) -> bool {
    &&& slim.len() == full.len()
    &&& forall|i: int|
        0 <= i < full.len() ==> array_within(array_plan(slim[i]), array_plan(#[trigger] full[i]))
}

/// The kept weights are as many as the reduced network reads.
pub proof fn kept_weights_are_enough<S>(
    full: Seq<ArraySpec<S>>,
    slim: Seq<ArraySpec<S>>,
    data: Seq<S>,
)
    requires
        stacks_within(slim, full),
        net_count(full, None) <= data.len(),
    ensures
        net_cut(full, slim, data).len() == net_count(slim, None),
{
    let p = array_plans(full);
    let q = array_plans(slim);
    assert forall|i: int| 0 <= i < p.len() implies array_within(q[i], #[trigger] p[i]) by {
        assert(p[i] == array_plan(full[i]));
    }
    lemma_stacks_cut_len(p, q, data, full.len());
}

/// The network with the kept weights is a slice of the full one: every stack
/// is, and the scale is the same.
pub proof fn kept_weights_are_a_slice<S: Scalar>(
    inputs: nat,
    full: Seq<ArraySpec<S>>,
    slim: Seq<ArraySpec<S>>,
    condition: Option<NetModel<S>>,
    data: Seq<S>,
)
    requires
        stacks_within(slim, full),
        net_count(full, None) == data.len(),
    ensures
        net_slice(
            net_from(inputs, slim, None, condition, net_cut(full, slim, data)),
            net_from(inputs, full, None, condition, data),
        ),
{
    let p = array_plans(full);
    let q = array_plans(slim);
    let n = full.len();
    let small = net_cut(full, slim, data);
    assert forall|i: int| 0 <= i < p.len() implies array_within(q[i], #[trigger] p[i]) by {
        assert(p[i] == array_plan(full[i]));
    }
    lemma_stacks_cut_len(p, q, data, n);
    let before = stacks_cut(p, q, data, n);
    assert(holds(small, 0, before)) by {
        reveal(holds);
    }
    let a = net_from(inputs, slim, None, condition, small);
    let b = net_from(inputs, full, None, condition, data);
    assert forall|i: int| 0 <= i < n implies array_slice(#[trigger] a.arrays[i], b.arrays[i]) by {
        assert(array_within(q[i], p[i]));
        let from = stacks_start(p, i as nat) as int;
        let to = stacks_start(q, i as nat) as int;
        let part = array_cut(p[i], q[i], data, from);
        lemma_stacks_cut(p, q, data, n, i);
        lemma_holds(small, 0, before, to, part);
        lemma_stacks_start(p, (i + 1) as nat, n);
        lemma_array_slice(p[i], q[i], small, to, data, from);
    }
}

/// A network is a slice of another with the same scale and condition.
pub open spec fn net_slice<S>(a: NetModel<S>, b: NetModel<S>) -> bool {
    &&& a.arrays.len() == b.arrays.len()
    &&& forall|i: int| 0 <= i < a.arrays.len() ==> array_slice(#[trigger] a.arrays[i], b.arrays[i])
    &&& a.scale == b.scale
    &&& a.head is None
    &&& b.head is None
    &&& a.condition == b.condition
    &&& a.inputs == b.inputs
}

} // verus!
