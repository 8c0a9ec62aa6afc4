//! The weights of a reduced network.

use crate::num::Scalar;
use crate::pure::array_config::{array_spec_wf, head_rows, ArraySpec, LayerArraySpec};
use crate::pure::array_setup::lemma_layers_start;
use crate::pure::assemble::{
    array_error, array_plan, layer_error, layer_plan, layers_error, part_error, parts_error,
    slot_plan,
};
use crate::pure::film::amounts;
use crate::pure::layer::{z_rows, GatingMode};
use crate::pure::layer_setup::lemma_part_start;
use crate::pure::net_build::{array_plans, lemma_stacks_start, net_count, specs, stacks_start};
use crate::pure::plan::{
    array_count, array_start, film_dim, layer_count, layers_start, part_count, part_start,
    ArrayPlan, LayerPlan, FILM_ACTIVATION_POST, FILM_CONV_PRE, FILM_HEAD1X1_POST,
    FILM_INPUT_MIXIN_PRE, FILM_LAYER1X1_POST,
};
use crate::pure::slim_config::slim_error;
use crate::pure::slim_extract::{
    block, extract_conv1d, extract_conv1x1, lesser, reads, short_text, Src,
};
use crate::text::{decimal, push_decimal, with_number};
use vstd::prelude::*;
use vstd::string::*;

verus! {

// Which weights ==============================================================

/// The weights of part `k` of a layer of shape `p`, whose weights start at
/// `pos`, that a layer of shape `q` keeps.
pub open spec fn part_cut<S>(
    p: LayerPlan<S>,
    q: LayerPlan<S>,
    data: Seq<S>,
    pos: int,
    k: int,
) -> Seq<S> {
    let at = pos + part_start(p, k as nat);
    let full = z_rows(p.gating, p.bottleneck);
    let slim = z_rows(q.gating, q.bottleneck);
    if k == 0 {
        block(data, at, p.channels, full, q.channels, slim, p.kernel, true)
    } else if k == 1 {
        block(data, at, p.condition, full, q.condition, slim, 1, false)
    } else if k == 2 {
        match p.layer1x1 {
            Some(_) => block(
                data,
                at,
                p.bottleneck,
                p.channels,
                q.bottleneck,
                q.channels,
                1,
                true,
            ),
            None => Seq::empty(),
        }
    } else if k == 3 {
        match p.head1x1 {
            Some((out, _)) => block(data, at, p.bottleneck, out, q.bottleneck, out, 1, true),
            None => Seq::empty(),
        }
    } else {
        match p.films[k - 4] {
            Some((shift, _)) => block(
                data,
                at,
                p.condition,
                amounts(film_dim(p, k - 4), shift),
                q.condition,
                amounts(film_dim(q, k - 4), shift),
                1,
                true,
            ),
            None => Seq::empty(),
        }
    }
}

/// The weights of the first `k` parts of a layer that are kept.
pub open spec fn layer_cut<S>(
    p: LayerPlan<S>,
    q: LayerPlan<S>,
    data: Seq<S>,
    pos: int,
    k: nat,
) -> Seq<S>
    decreases k,
{
    if k == 0 {
        Seq::empty()
    } else {
        layer_cut(p, q, data, pos, (k - 1) as nat) + part_cut(p, q, data, pos, k - 1)
    }
}

/// The weights of the first `k` layers that are kept.
pub open spec fn layers_cut<S>(
    p: Seq<LayerPlan<S>>,
    q: Seq<LayerPlan<S>>,
    data: Seq<S>,
    pos: int,
    k: nat,
) -> Seq<S>
    decreases k,
{
    if k == 0 {
        Seq::empty()
    } else {
        layers_cut(p, q, data, pos, (k - 1) as nat) + layer_cut(
            p[k - 1],
            q[k - 1],
            data,
            pos + layers_start(p, (k - 1) as nat),
            12,
        )
    }
}

/// The weights of a stack that are kept.
pub open spec fn array_cut<S>(
    p: ArrayPlan<S>,
    q: ArrayPlan<S>,
    data: Seq<S>,
    pos: int,
) -> Seq<S> {
    block(data, pos, p.input, p.channels, q.input, q.channels, 1, false) + layers_cut(
        p.layers,
        q.layers,
        data,
        pos + array_start(p, 0),
        p.layers.len(),
    ) + block(
        data,
        pos + array_start(p, p.layers.len()),
        p.head_rows,
        p.head_size,
        q.head_rows,
        q.head_size,
        1,
        p.head_bias,
    )
}

/// The weights of the first `k` stacks that are kept.
pub open spec fn stacks_cut<S>(
    p: Seq<ArrayPlan<S>>,
    q: Seq<ArrayPlan<S>>,
    data: Seq<S>,
    k: nat,
) -> Seq<S>
    decreases k,
{
    if k == 0 {
        Seq::empty()
    } else {
        stacks_cut(p, q, data, (k - 1) as nat) + array_cut(
            p[k - 1],
            q[k - 1],
            data,
            stacks_start(p, (k - 1) as nat) as int,
        )
    }
}

/// The weights of a reduced network: those that are kept, and the scale.
pub open spec fn net_cut<S>(
    full: Seq<ArraySpec<S>>,
    slim: Seq<ArraySpec<S>>,
    data: Seq<S>,
) -> Seq<S> {
    stacks_cut(array_plans(full), array_plans(slim), data, full.len()).push(
        data[stacks_start(array_plans(full), full.len()) as int],
    )
}

/// `b` is `a` with other channels.
pub open spec fn resized<S>(a: ArraySpec<S>, b: ArraySpec<S>) -> bool {
    b == (ArraySpec {
        channels: b.channels,
        bottleneck: b.bottleneck,
        input_size: b.input_size,
        head_size: b.head_size,
        ..a
    })
}

// Layers =====================================================================

/// The reader stands behind the first `k` parts of a layer, and what is kept of
/// them has been written.
spec fn cut_to<S>(
    src: Src<S>,
    dst: Seq<S>,
    had: Seq<S>,
    p: LayerPlan<S>,
    q: LayerPlan<S>,
    pos: int,
    k: nat,
) -> bool {
    &&& src.pos == pos + part_start(p, k)
    &&& src.pos <= src.data@.len()
    &&& dst == had + layer_cut(p, q, src.data@, pos, k)
}

/// One more part.
proof fn lemma_cut_step<S>(
    before: Src<S>,
    after: Src<S>,
    dst: Seq<S>,
    now: Seq<S>,
    had: Seq<S>,
    p: LayerPlan<S>,
    q: LayerPlan<S>,
    pos: int,
    k: nat,
    r: Result<(), String>,
)
    requires
        k < 12,
        cut_to(before, dst, had, p, q, pos, k),
        reads(
            before,
            after,
            dst,
            now,
            r,
            part_count(p, k as int),
            part_cut(p, q, before.data@, pos, k as int),
        ),
    ensures
        r is Ok ==> cut_to(after, now, had, p, q, pos, k + 1),
        r is Err ==> pos + layer_count(p) > before.data@.len(),
        pos + part_start(p, k + 1) <= pos + layer_count(p),
{
    lemma_part_start(p, k + 1, 12);
    if r is Ok {
        assert(now =~= had + layer_cut(p, q, before.data@, pos, k + 1));
    }
}

/// A missing part takes no weights.
proof fn lemma_cut_skip<S>(
    src: Src<S>,
    dst: Seq<S>,
    had: Seq<S>,
    p: LayerPlan<S>,
    q: LayerPlan<S>,
    pos: int,
    k: nat,
)
    requires
        cut_to(src, dst, had, p, q, pos, k),
        part_count(p, k as int) == 0,
        part_cut(p, q, src.data@, pos, k as int) == Seq::<S>::empty(),
    ensures
        cut_to(src, dst, had, p, q, pos, k + 1),
{
    assert(dst =~= had + layer_cut(p, q, src.data@, pos, k + 1));
}

/// The size of `dim` channels of modulation, or of `full` where that is less.
fn film_outputs(dim: usize, full: usize, shift: bool) -> (r: usize)
    requires
        amounts(full as nat, shift) <= usize::MAX,
    ensures
        r == amounts(lesser(dim as nat, full as nat), shift),
{
    let d = if dim <= full {
        dim
    } else {
        full
    };
    if shift {
        2 * d
    } else {
        d
    }
}

/// Cut the modulation at place `slot`, where there is one.
fn extract_film<S: Scalar>(
    src: &mut Src<S>,
    spec: &LayerArraySpec<S>,
    slot: usize,
    full_dim: usize,
    slim_dim: usize,
    dst: &mut Vec<S>,
    Ghost(p): Ghost<LayerPlan<S>>,
    Ghost(q): Ghost<LayerPlan<S>>,
    Ghost(pos): Ghost<int>,
    Ghost(had): Ghost<Seq<S>>,
) -> (r: Result<(), String>)
    requires
        slot < 8,
        p.films[slot as int] == slot_plan(spec.model(), slot as int),
        p.films[slot as int] matches Some((_, groups)) ==> groups == 1,
        p.condition == spec.condition_size,
        q.condition == p.condition,
        part_error(p, slot + 4) is None,
        full_dim == film_dim(p, slot as int),
        lesser(slim_dim as nat, full_dim as nat) == lesser(
            film_dim(q, slot as int),
            full_dim as nat,
        ),
        cut_to(*old(src), old(dst)@, had, p, q, pos, (slot + 4) as nat),
    ensures
        final(src).data == old(src).data,
        r is Ok ==> cut_to(*final(src), final(dst)@, had, p, q, pos, (slot + 5) as nat),
        r is Err ==> pos + layer_count(p) > old(src).data@.len(),
        r matches Err(e) ==> e@ == short_text(),
        final(src).wf(),
{
    let f = spec.films[slot];
    let there = f.active && (slot != FILM_LAYER1X1_POST || spec.layer1x1_active) && (slot
        != FILM_HEAD1X1_POST || spec.head1x1_active);
    if !there {
        proof {
            lemma_cut_skip(*src, dst@, had, p, q, pos, (slot + 4) as nat);
        }
        return Ok(());
    }
    let ghost before = *src;
    let ghost was = dst@;
    let full = film_outputs(full_dim, full_dim, f.shift);
    let slim = film_outputs(slim_dim, full_dim, f.shift);
    let r = extract_conv1x1(src, spec.condition_size, full, spec.condition_size, slim, true, dst);
    proof {
        lemma_cut_step(before, *src, was, dst@, had, p, q, pos, (slot + 4) as nat, r);
    }
    r
}

/// Where all parts can be made, each can.
proof fn lemma_parts_each<S>(p: LayerPlan<S>, n: nat, k: int)
    requires
        0 <= k < n,
        parts_error(p, n) is None,
    ensures
        part_error(p, k) is None,
    decreases n,
{
    if k < n - 1 {
        lemma_parts_each(p, (n - 1) as nat, k);
    }
}

/// Cut the modulations of a layer.
fn extract_films<S: Scalar>(
    src: &mut Src<S>,
    spec: &LayerArraySpec<S>,
    sizes: (usize, usize, usize, usize, usize, usize),
    dst: &mut Vec<S>,
    Ghost(p): Ghost<LayerPlan<S>>,
    Ghost(q): Ghost<LayerPlan<S>>,
    Ghost(pos): Ghost<int>,
    Ghost(had): Ghost<Seq<S>>,
) -> (r: Result<(), String>)
    requires
        p.films == Seq::new(8, |k: int| slot_plan(spec.model(), k)),
        forall|k: int|
            0 <= k < 8 ==> ((#[trigger] p.films[k]) matches Some((_, groups)) ==> groups == 1),
        p.condition == spec.condition_size,
        q.condition == p.condition,
        q.head1x1 == p.head1x1,
        p.head1x1 matches Some((out, _)) ==> out == spec.head1x1_out,
        p.head1x1 is Some <==> spec.head1x1_active,
        parts_error(p, 12) is None,
        sizes.0 == p.channels,
        sizes.1 == lesser(q.channels, p.channels),
        sizes.2 == p.bottleneck,
        sizes.3 == lesser(q.bottleneck, p.bottleneck),
        sizes.4 == z_rows(p.gating, p.bottleneck),
        sizes.5 == lesser(z_rows(q.gating, q.bottleneck), z_rows(p.gating, p.bottleneck)),
        cut_to(*old(src), old(dst)@, had, p, q, pos, 4),
    ensures
        final(src).wf(),
        final(src).data == old(src).data,
        r is Ok ==> cut_to(*final(src), final(dst)@, had, p, q, pos, 12),
        r is Err ==> pos + layer_count(p) > old(src).data@.len(),
        r matches Err(e) ==> e@ == short_text(),
{
    let (full_ch, slim_ch, full_bn, slim_bn, full_bg, slim_bg) = sizes;
    let cond = spec.condition_size;
    let head_out = if spec.head1x1_active {
        spec.head1x1_out
    } else {
        0
    };
    let mut slot: usize = 0;
    while slot < 8
        invariant
            slot <= 8,
            p.films == Seq::new(8, |k: int| slot_plan(spec.model(), k)),
            forall|k: int|
                0 <= k < 8 ==> ((#[trigger] p.films[k]) matches Some((_, groups)) ==> groups == 1),
            p.condition == spec.condition_size,
            q.condition == p.condition,
            q.head1x1 == p.head1x1,
            head_out == film_dim(p, 7),
            parts_error(p, 12) is None,
            full_ch == p.channels,
            slim_ch == lesser(q.channels, p.channels),
            full_bn == p.bottleneck,
            slim_bn == lesser(q.bottleneck, p.bottleneck),
            full_bg == z_rows(p.gating, p.bottleneck),
            slim_bg == lesser(z_rows(q.gating, q.bottleneck), z_rows(p.gating, p.bottleneck)),
            cond == spec.condition_size,
            src.data == old(src).data,
            cut_to(*src, dst@, had, p, q, pos, (slot + 4) as nat),
        decreases 8 - slot,
    {
        proof {
            lemma_parts_each(p, 12, slot + 4);
        }
        let (full_dim, slim_dim) = if slot == FILM_CONV_PRE || slot == FILM_LAYER1X1_POST {
            (full_ch, slim_ch)
        } else if slot == FILM_INPUT_MIXIN_PRE {
            (cond, cond)
        } else if slot == FILM_ACTIVATION_POST {
            (full_bn, slim_bn)
        } else if slot == FILM_HEAD1X1_POST {
            (head_out, head_out)
        } else {
            (full_bg, slim_bg)
        };
        if let Err(e) = extract_film(
            src,
            spec,
            slot,
            full_dim,
            slim_dim,
            dst,
            Ghost(p),
            Ghost(q),
            Ghost(pos),
            Ghost(had),
        ) {
            return Err(e);
        }
        slot += 1;
    }
    Ok(())
}

fn least(a: usize, b: usize) -> (r: usize)
    ensures
        r == lesser(a as nat, b as nat),
{
    if a <= b {
        a
    } else {
        b
    }
}

/// Cut layer `li`.
fn extract_layer<S: Scalar>(
    src: &mut Src<S>,
    spec: &LayerArraySpec<S>,
    slim: &LayerArraySpec<S>,
    li: usize,
    dst: &mut Vec<S>,
) -> (r: Result<(), String>)
    requires
        old(src).wf(),
        array_spec_wf(spec.model()),
        slim_error(spec.model()) is None,
        resized(spec.model(), slim.model()),
        li < spec.dilations@.len(),
        layer_error(layer_plan(spec.model(), li as int)) is None,
    ensures
        final(src).wf(),
        reads(
            *old(src),
            *final(src),
            old(dst)@,
            final(dst)@,
            r,
            layer_count(layer_plan(spec.model(), li as int)),
            layer_cut(
                layer_plan(spec.model(), li as int),
                layer_plan(slim.model(), li as int),
                old(src).data@,
                old(src).pos as int,
                12,
            ),
        ),
{
    let ghost p = layer_plan(spec.model(), li as int);
    let ghost q = layer_plan(slim.model(), li as int);
    let ghost pos = src.pos as int;
    let ghost had = dst@;
    let gated = match spec.gating_modes[li] {
        GatingMode::Ungated => false,
        _ => true,
    };
    let cond = spec.condition_size;
    let full_ch = spec.channels;
    let slim_ch = least(slim.channels, full_ch);
    let full_bn = spec.bottleneck;
    let slim_bn = least(slim.bottleneck, full_bn);
    let full_bg = if gated {
        2 * full_bn
    } else {
        full_bn
    };
    let slim_bg = if gated {
        2 * slim_bn
    } else {
        slim_bn
    };
    assert(had + layer_cut(p, q, src.data@, pos, 0) =~= had);
    assert(cut_to(*src, dst@, had, p, q, pos, 0));

    let ghost s0 = *src;
    let ghost d0 = dst@;
    let r0 = extract_conv1d(
        src,
        full_ch,
        full_bg,
        slim_ch,
        slim_bg,
        spec.kernel_sizes[li],
        dst,
    );
    proof {
        lemma_cut_step(s0, *src, d0, dst@, had, p, q, pos, 0, r0);
    }
    if let Err(e) = r0 {
        return Err(e);
    }
    let ghost s1 = *src;
    let ghost d1 = dst@;
    let r1 = extract_conv1x1(src, cond, full_bg, cond, slim_bg, false, dst);
    proof {
        lemma_cut_step(s1, *src, d1, dst@, had, p, q, pos, 1, r1);
    }
    if let Err(e) = r1 {
        return Err(e);
    }
    let ghost s2 = *src;
    let ghost d2 = dst@;
    if spec.layer1x1_active {
        let r2 = extract_conv1x1(src, full_bn, full_ch, slim_bn, slim_ch, true, dst);
        proof {
            lemma_cut_step(s2, *src, d2, dst@, had, p, q, pos, 2, r2);
        }
        if let Err(e) = r2 {
            return Err(e);
        }
    } else {
        proof {
            lemma_cut_skip(s2, d2, had, p, q, pos, 2);
        }
    }
    let ghost s3 = *src;
    let ghost d3 = dst@;
    if spec.head1x1_active {
        let out = spec.head1x1_out;
        let r3 = extract_conv1x1(src, full_bn, out, slim_bn, out, true, dst);
        proof {
            lemma_cut_step(s3, *src, d3, dst@, had, p, q, pos, 3, r3);
        }
        if let Err(e) = r3 {
            return Err(e);
        }
    } else {
        proof {
            lemma_cut_skip(s3, d3, had, p, q, pos, 3);
        }
    }
    let sizes = (full_ch, slim_ch, full_bn, slim_bn, full_bg, slim_bg);
    extract_films(
        src,
        spec,
        sizes,
        dst,
        Ghost(p),
        Ghost(q),
        Ghost(pos),
        Ghost(had),
    )
}

// Stacks =====================================================================

/// Where all layers can be made, each can.
proof fn lemma_layers_each<S>(layers: Seq<LayerPlan<S>>, n: nat, k: int)
    requires
        0 <= k < n,
        layers_error(layers, n) is None,
    ensures
        layer_error(layers[k]) is None,
    decreases n,
{
    if k < n - 1 {
        lemma_layers_each(layers, (n - 1) as nat, k);
    }
}

/// Cut all layers of a stack.
fn extract_layers<S: Scalar>(
    src: &mut Src<S>,
    spec: &LayerArraySpec<S>,
    slim: &LayerArraySpec<S>,
    dst: &mut Vec<S>,
) -> (r: Result<(), String>)
    requires
        old(src).wf(),
        array_spec_wf(spec.model()),
        slim_error(spec.model()) is None,
        resized(spec.model(), slim.model()),
        array_error(array_plan(spec.model())) is None,
    ensures
        final(src).wf(),
        ({
            let p = array_plan(spec.model()).layers;
            let q = array_plan(slim.model()).layers;
            reads(
                *old(src),
                *final(src),
                old(dst)@,
                final(dst)@,
                r,
                layers_start(p, p.len()),
                layers_cut(p, q, old(src).data@, old(src).pos as int, p.len()),
            )
        }),
{
    let ghost p = array_plan(spec.model()).layers;
    let ghost q = array_plan(slim.model()).layers;
    let ghost data = src.data@;
    let ghost pos = src.pos as int;
    let ghost had = dst@;
    let mut li: usize = 0;
    assert(had + layers_cut(p, q, data, pos, 0) =~= had);
    while li < spec.dilations.len()
        invariant
            li <= spec.dilations@.len(),
            array_spec_wf(spec.model()),
            slim_error(spec.model()) is None,
            resized(spec.model(), slim.model()),
            array_error(array_plan(spec.model())) is None,
            p == array_plan(spec.model()).layers,
            q == array_plan(slim.model()).layers,
            src.wf(),
            src.data == old(src).data,
            data == src.data@,
            pos == old(src).pos,
            had == old(dst)@,
            src.pos == pos + layers_start(p, li as nat),
            dst@ == had + layers_cut(p, q, data, pos, li as nat),
        decreases spec.dilations@.len() - li,
    {
        let ghost was = dst@;
        proof {
            assert(p[li as int] == layer_plan(spec.model(), li as int));
            assert(q[li as int] == layer_plan(slim.model(), li as int));
            lemma_layers_each(p, p.len(), li as int);
            lemma_layers_start(p, (li + 1) as nat, p.len());
        }
        if let Err(e) = extract_layer(src, spec, slim, li, dst) {
            return Err(e);
        }
        assert(dst@ =~= had + layers_cut(p, q, data, pos, (li + 1) as nat));
        li += 1;
    }
    Ok(())
}

/// Cut a stack.
fn extract_array<S: Scalar>(
    src: &mut Src<S>,
    spec: &LayerArraySpec<S>,
    slim: &LayerArraySpec<S>,
    dst: &mut Vec<S>,
) -> (r: Result<(), String>)
    requires
        old(src).wf(),
        array_spec_wf(spec.model()),
        slim_error(spec.model()) is None,
        resized(spec.model(), slim.model()),
        array_error(array_plan(spec.model())) is None,
    ensures
        final(src).wf(),
        reads(
            *old(src),
            *final(src),
            old(dst)@,
            final(dst)@,
            r,
            array_count(array_plan(spec.model())),
            array_cut(
                array_plan(spec.model()),
                array_plan(slim.model()),
                old(src).data@,
                old(src).pos as int,
            ),
        ),
{
    let ghost p = array_plan(spec.model());
    let ghost q = array_plan(slim.model());
    let ghost had = dst@;
    if let Err(e) = extract_conv1x1(
        src,
        spec.input_size,
        spec.channels,
        slim.input_size,
        slim.channels,
        false,
        dst,
    ) {
        return Err(e);
    }
    if let Err(e) = extract_layers(src, spec, slim, dst) {
        return Err(e);
    }
    if let Err(e) = extract_conv1x1(
        src,
        spec.head_output_size(),
        spec.head_size,
        slim.head_output_size(),
        slim.head_size,
        spec.head_bias,
        dst,
    ) {
        return Err(e);
    }
    assert(dst@ =~= had + array_cut(p, q, old(src).data@, old(src).pos as int));
    Ok(())
}

/// The complaint about too many weights.
pub open spec fn extra_text(count: nat, len: nat) -> Seq<char> {
    "SlimmableWavenet: extraction consumed "@ + decimal(count) + " of "@ + decimal(len)
        + " weights"@
}

/// The weights of a reduced network, or the complaint about a list of weights
/// that the full network does not read to its end.
pub open spec fn slimmed_weights<S>(
    full: Seq<ArraySpec<S>>,
    slim: Seq<ArraySpec<S>>,
    data: Seq<S>,
) -> Result<Seq<S>, Seq<char>> {
    if net_count(full, None) > data.len() {
        Err(short_text())
    } else if net_count(full, None) < data.len() {
        Err(extra_text(net_count(full, None), data.len()))
    } else {
        Ok(net_cut(full, slim, data))
    }
}

/// Every stack can be made and reduced.
pub open spec fn can_cut<S>(full: Seq<ArraySpec<S>>) -> bool {
    forall|i: int|
        0 <= i < full.len() ==> {
            &&& array_spec_wf(#[trigger] full[i])
            &&& slim_error(full[i]) is None
            &&& array_error(array_plan(full[i])) is None
        }
}

/// Each stack of `slim` is one of `full` with other channels.
pub open spec fn all_resized<S>(full: Seq<ArraySpec<S>>, slim: Seq<ArraySpec<S>>) -> bool {
    &&& full.len() == slim.len()
    &&& forall|i: int| 0 <= i < full.len() ==> resized(full[i], #[trigger] slim[i])
}

/// Cut the weights of a reduced network out of those of the full one.
pub fn extract_slimmed_weights<S: Scalar>(
    list: &Vec<LayerArraySpec<S>>,
    slim_list: &Vec<LayerArraySpec<S>>,
    full_weights: &[S],
) -> (r: Result<Vec<S>, String>)
    requires
        can_cut(specs(list@)),
        all_resized(specs(list@), specs(slim_list@)),
    ensures
        match r {
            Ok(v) => slimmed_weights(specs(list@), specs(slim_list@), full_weights@) == Ok::<
                Seq<S>,
                Seq<char>,
            >(v@),
            Err(e) => slimmed_weights(specs(list@), specs(slim_list@), full_weights@) == Err::<
                Seq<S>,
                Seq<char>,
            >(e@),
        },
{
    let ghost full = specs(list@);
    let ghost slim = specs(slim_list@);
    let ghost p = array_plans(full);
    let ghost q = array_plans(slim);
    let ghost data = full_weights@;
    let mut dst: Vec<S> = Vec::new();
    let mut src = Src { data: full_weights, pos: 0 };
    let mut i: usize = 0;
    while i < list.len()
        invariant
            i <= list@.len(),
            full == specs(list@),
            slim == specs(slim_list@),
            p == array_plans(full),
            q == array_plans(slim),
            can_cut(full),
            all_resized(full, slim),
            src.wf(),
            src.data == full_weights,
            data == full_weights@,
            src.pos == stacks_start(p, i as nat),
            dst@ == stacks_cut(p, q, data, i as nat),
        decreases list@.len() - i,
    {
        proof {
            assert(full[i as int] == list@[i as int].model());
            assert(slim[i as int] == slim_list@[i as int].model());
            assert(resized(full[i as int], slim[i as int]));
            assert(p[i as int] == array_plan(full[i as int]));
            assert(q[i as int] == array_plan(slim[i as int]));
            lemma_stacks_start(p, (i + 1) as nat, p.len());
        }
        if let Err(e) = extract_array(&mut src, &list[i], &slim_list[i], &mut dst) {
            return Err(e);
        }
        i += 1;
    }
    match src.take() {
        Ok(v) => dst.push(v),
        Err(e) => {
            return Err(e);
        },
    }
    if src.pos != full_weights.len() {
        let mut e = with_number("SlimmableWavenet: extraction consumed ", src.pos, " of ");
        push_decimal(&mut e, full_weights.len());
        e.append(" weights");
        return Err(e);
    }
    Ok(dst)
}

} // verus!
