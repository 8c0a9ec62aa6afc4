//! Preparing a layer: its buffers and its weights.

use crate::num::{lawful, Scalar};
use crate::pure::conv1d::{lookback, Dilated};
use crate::pure::film::{
    amounts, film_fits, film_model, film_sized, modulation_from, Film, Modulation,
};
use crate::pure::layer::{opt_act, proj_model, proj_sized, Layer, LayerModel};
use crate::pure::mat::silence;
use crate::pure::nn::{affine_count, affine_from, underflow_text, Affine, Conv1x1, Weights};
use crate::pure::plan::{
    film_dim, layer_count, layer_from, part_count, part_start, planned_film, LayerPlan,
};
use vstd::prelude::*;

verus! {

// Room for frames ============================================================

/// The output of a pointwise convolution of a block can be addressed.
pub open spec fn affine_fits<S>(m: Affine<S>, max: nat) -> bool {
    max * m.outputs <= usize::MAX
}

/// The history and output of a convolution of a block can be addressed.
pub open spec fn dilated_fits<S>(m: Dilated<S>, max: nat) -> bool {
    &&& lookback(m) + max <= usize::MAX
    &&& (lookback(m) + max) * m.inputs <= usize::MAX
    &&& max * m.outputs <= usize::MAX
}

/// The buffers of an optional modulation of a block can be addressed.
pub open spec fn modulation_fits<S>(m: Option<Modulation<S>>, max: nat) -> bool {
    m matches Some(m) ==> affine_fits(m.conv, max) && max * m.dim <= usize::MAX
}

/// The buffer of an optional projection of a block can be addressed.
pub open spec fn projection_fits<S>(m: Option<Affine<S>>, max: nat) -> bool {
    m matches Some(m) ==> affine_fits(m, max)
}

/// The buffers of a layer can be addressed.
pub open spec fn layer_fits<S>(m: LayerModel<S>, max: nat) -> bool {
    &&& dilated_fits(m.conv, max)
    &&& affine_fits(m.mixin, max)
    &&& projection_fits(m.layer1x1, max)
    &&& projection_fits(m.head1x1, max)
    &&& modulation_fits(m.conv_pre, max)
    &&& modulation_fits(m.conv_post, max)
    &&& modulation_fits(m.mixin_pre, max)
    &&& modulation_fits(m.mixin_post, max)
    &&& modulation_fits(m.act_pre, max)
    &&& modulation_fits(m.act_post, max)
    &&& modulation_fits(m.layer1x1_post, max)
    &&& modulation_fits(m.head1x1_post, max)
    &&& max * m.channels <= usize::MAX
}

fn size_film<S: Scalar>(film: &mut Option<Film<S>>, max_frames: usize)
    requires
        lawful::<S>(),
        *old(film) matches Some(f) ==> f.wf(),
        modulation_fits(film_model(*old(film)), max_frames as nat),
    ensures
        film_model(*final(film)) == film_model(*old(film)),
        *final(film) matches Some(f) ==> f.wf(),
        film_sized(*final(film), max_frames as nat),
{
    match film {
        Some(f) => f.set_max_buffer_size(max_frames),
        None => {},
    }
}

fn size_projection<S: Scalar>(proj: &mut Option<Conv1x1<S>>, max_frames: usize)
    requires
        lawful::<S>(),
        *old(proj) matches Some(p) ==> p.wf(),
        projection_fits(proj_model(*old(proj)), max_frames as nat),
    ensures
        proj_model(*final(proj)) == proj_model(*old(proj)),
        *final(proj) matches Some(p) ==> {
            &&& p.wf()
            &&& *old(proj) matches Some(q) && p.biased == q.biased
        },
        proj_sized(*final(proj), max_frames as nat),
{
    match proj {
        Some(p) => p.set_max_buffer_size(max_frames),
        None => {},
    }
}

impl<S: Scalar> Layer<S> {
    /// Forget the history and make room for blocks of up to `max_frames`
    /// frames.
    pub fn set_max_buffer_size(&mut self, max_frames: usize)
        requires
            lawful::<S>(),
            old(self).wf(),
            layer_fits(old(self).model(), max_frames as nat),
        ensures
            final(self).wf(),
            final(self).model() == old(self).model(),
            final(self).sized(max_frames as nat),
            final(self).conv.history() == silence::<S>(
                old(self).channels as nat,
                lookback(old(self).model().conv) as nat,
            ),
    {
        self.conv.set_max_buffer_size(max_frames);
        self.input_mixin.set_max_buffer_size(max_frames);
        self.z.reset(self.conv.out_ch, max_frames);
        size_projection(&mut self.layer1x1, max_frames);
        size_projection(&mut self.head1x1, max_frames);
        size_film(&mut self.conv_pre_film, max_frames);
        size_film(&mut self.conv_post_film, max_frames);
        size_film(&mut self.input_mixin_pre_film, max_frames);
        size_film(&mut self.input_mixin_post_film, max_frames);
        size_film(&mut self.activation_pre_film, max_frames);
        size_film(&mut self.activation_post_film, max_frames);
        size_film(&mut self.layer1x1_post_film, max_frames);
        size_film(&mut self.head1x1_post_film, max_frames);
        self.out_next.reset(self.channels, max_frames);
    }
}

// Weights ====================================================================

/// Shift and groups of an optional modulation.
pub open spec fn film_plan<S: Scalar>(film: Option<Film<S>>) -> Option<(bool, nat)> {
    match film {
        Some(f) => Some((f.shift, f.conv.groups as nat)),
        None => None,
    }
}

impl<S: Scalar> Layer<S> {
    /// Every part adds a bias but for the contribution of the condition.
    pub open spec fn standard_bias(&self) -> bool {
        &&& self.conv.biased
        &&& !self.input_mixin.biased
        &&& self.layer1x1 matches Some(p) ==> p.biased
        &&& self.head1x1 matches Some(p) ==> p.biased
    }

    /// The shape of this layer.
    pub open spec fn plan(&self) -> LayerPlan<S> {
        LayerPlan {
            channels: self.channels as nat,
            condition: self.cond(),
            bottleneck: self.bottleneck as nat,
            gating: self.gating,
            act: self.activation.model(),
            secondary: opt_act(self.secondary_activation),
            kernel: self.conv.weight@.len(),
            dilation: self.conv.dilation as nat,
            groups_input: self.conv.groups as nat,
            groups_mixin: self.input_mixin.groups as nat,
            layer1x1: match self.layer1x1 {
                Some(p) => Some(p.groups as nat),
                None => None,
            },
            head1x1: match self.head1x1 {
                Some(p) => Some((p.out_ch as nat, p.groups as nat)),
                None => None,
            },
            films: seq![
                film_plan(self.conv_pre_film),
                film_plan(self.conv_post_film),
                film_plan(self.input_mixin_pre_film),
                film_plan(self.input_mixin_post_film),
                film_plan(self.activation_pre_film),
                film_plan(self.activation_post_film),
                film_plan(self.layer1x1_post_film),
                film_plan(self.head1x1_post_film),
            ],
        }
    }
}

/// The modulation of `dim` channels that the weights from `pos` on describe,
/// where there is one.
pub open spec fn film_from<S: Scalar>(
    plan: Option<(bool, nat)>,
    data: Seq<S>,
    pos: int,
    condition: nat,
    dim: nat,
) -> Option<Modulation<S>> {
    match plan {
        Some((shift, groups)) => Some(modulation_from(data, pos, condition, dim, shift, groups)),
        None => None,
    }
}

/// How many weights an optional modulation of `dim` channels reads.
pub open spec fn film_count(plan: Option<(bool, nat)>, condition: nat, dim: nat) -> nat {
    match plan {
        Some((shift, groups)) => affine_count(condition, amounts(dim, shift), true, groups),
        None => 0,
    }
}

fn load_film<S: Scalar>(
    film: &mut Option<Film<S>>,
    w: &mut Weights<S>,
    Ghost(dim): Ghost<nat>,
    Ghost(condition): Ghost<nat>,
) -> (r: Result<(), String>)
    requires
        lawful::<S>(),
        film_fits(*old(film), dim, condition),
        old(w).wf(),
    ensures
        film_fits(*final(film), dim, condition),
        film_plan(*final(film)) == film_plan(*old(film)),
        final(w).wf(),
        final(w).data == old(w).data,
        r is Ok <==> old(w).pos + film_count(film_plan(*old(film)), condition, dim) <= old(
            w,
        ).data@.len(),
        r is Ok ==> {
            &&& final(w).pos == old(w).pos + film_count(film_plan(*old(film)), condition, dim)
            &&& film_model(*final(film)) == film_from(
                film_plan(*old(film)),
                old(w).data@,
                old(w).pos as int,
                condition,
                dim,
            )
        },
        r matches Err(e) ==> {
            &&& e@ == underflow_text(old(w).data@.len())
            &&& final(w).pos == old(w).data@.len()
        },
{
    match film {
        Some(f) => f.set_weights(w),
        None => Ok(()),
    }
}

fn load_projection<S: Scalar>(proj: &mut Option<Conv1x1<S>>, w: &mut Weights<S>) -> (r: Result<
    (),
    String,
>)
    requires
        lawful::<S>(),
        *old(proj) matches Some(p) ==> p.wf(),
        old(w).wf(),
    ensures
        match (*old(proj), *final(proj)) {
            (Some(p), Some(q)) => {
                &&& q.wf()
                &&& q.in_ch == p.in_ch
                &&& q.out_ch == p.out_ch
                &&& q.groups == p.groups
                &&& q.biased == p.biased
            },
            (None, None) => true,
            _ => false,
        },
        final(w).wf(),
        final(w).data == old(w).data,
        r is Ok <==> old(w).pos + match *old(proj) {
            Some(p) => p.count(),
            None => 0,
        } <= old(w).data@.len(),
        r is Ok ==> {
            &&& final(w).pos == old(w).pos + match *old(proj) {
                Some(p) => p.count(),
                None => 0,
            }
            &&& proj_model(*final(proj)) == match *old(proj) {
                Some(p) => Some(
                    affine_from(
                        old(w).data@,
                        old(w).pos as int,
                        p.in_ch as nat,
                        p.out_ch as nat,
                        p.biased,
                        p.groups as nat,
                    ),
                ),
                None => None,
            }
        },
        r matches Err(e) ==> {
            &&& e@ == underflow_text(old(w).data@.len())
            &&& final(w).pos == old(w).data@.len()
        },
{
    match proj {
        Some(p) => p.set_weights(w),
        None => Ok(()),
    }
}

/// The parts of a layer start one after the other.
pub proof fn lemma_part_start<S>(p: LayerPlan<S>, j: nat, k: nat)
    requires
        j <= k,
    ensures
        part_start(p, j) <= part_start(p, k),
    decreases k - j,
{
    if j < k {
        lemma_part_start(p, j, (k - 1) as nat);
    }
}

/// The modulation at place `slot` has the shape that the plan gives.
spec fn film_as_planned<S: Scalar>(film: Option<Film<S>>, p: LayerPlan<S>, slot: int) -> bool {
    &&& film_fits(film, film_dim(p, slot), p.condition)
    &&& film_plan(film) == p.films[slot]
}

/// Read the modulation at place `slot` of a layer whose weights start at `pos`.
fn load_planned<S: Scalar>(
    film: &mut Option<Film<S>>,
    w: &mut Weights<S>,
    Ghost(p): Ghost<LayerPlan<S>>,
    Ghost(pos): Ghost<int>,
    Ghost(slot): Ghost<nat>,
) -> (r: Result<(), String>)
    requires
        lawful::<S>(),
        slot < 8,
        film_as_planned(*old(film), p, slot as int),
        old(w).wf(),
        old(w).pos == pos + part_start(p, 4 + slot),
        pos + part_start(p, 4 + slot) <= old(w).data@.len(),
    ensures
        film_as_planned(*final(film), p, slot as int),
        final(w).wf(),
        final(w).data == old(w).data,
        r is Ok <==> pos + part_start(p, 5 + slot) <= old(w).data@.len(),
        r is Ok ==> {
            &&& final(w).pos == pos + part_start(p, 5 + slot)
            &&& film_model(*final(film)) == planned_film(p, old(w).data@, pos, slot)
        },
        r is Err ==> pos + layer_count(p) > old(w).data@.len(),
        r matches Err(e) ==> e@ == underflow_text(old(w).data@.len()),
{
    proof {
        assert(part_start(p, 5 + slot) == part_start(p, 4 + slot) + part_count(
            p,
            (4 + slot) as int,
        ));
        lemma_part_start(p, 5 + slot, 12);
    }
    load_film(film, w, Ghost(film_dim(p, slot as int)), Ghost(p.condition))
}

impl<S: Scalar> Layer<S> {
    /// The modulations are as planned.
    spec fn films_as_planned(&self, p: LayerPlan<S>) -> bool {
        &&& film_as_planned(self.conv_pre_film, p, 0)
        &&& film_as_planned(self.conv_post_film, p, 1)
        &&& film_as_planned(self.input_mixin_pre_film, p, 2)
        &&& film_as_planned(self.input_mixin_post_film, p, 3)
        &&& film_as_planned(self.activation_pre_film, p, 4)
        &&& film_as_planned(self.activation_post_film, p, 5)
        &&& film_as_planned(self.layer1x1_post_film, p, 6)
        &&& film_as_planned(self.head1x1_post_film, p, 7)
    }

    /// Everything but the modulations is as in `other`.
    spec fn same_but_films(&self, other: &Self) -> bool {
        &&& self.conv == other.conv
        &&& self.input_mixin == other.input_mixin
        &&& self.layer1x1 == other.layer1x1
        &&& self.head1x1 == other.head1x1
        &&& self.activation == other.activation
        &&& self.secondary_activation == other.secondary_activation
        &&& self.gating == other.gating
        &&& self.bottleneck == other.bottleneck
        &&& self.channels == other.channels
        &&& self.z == other.z
        &&& self.out_next == other.out_next
    }

    fn load_films(
        &mut self,
        w: &mut Weights<S>,
        Ghost(p): Ghost<LayerPlan<S>>,
        Ghost(pos): Ghost<int>,
    ) -> (r: Result<(), String>)
        requires
            lawful::<S>(),
            old(self).films_as_planned(p),
            old(w).wf(),
            old(w).pos == pos + part_start(p, 4),
            pos + part_start(p, 4) <= old(w).data@.len(),
        ensures
            final(self).films_as_planned(p),
            final(self).same_but_films(old(self)),
            final(w).wf(),
            final(w).data == old(w).data,
            r is Ok <==> pos + layer_count(p) <= old(w).data@.len(),
            r is Ok ==> {
                let data = old(w).data@;
                &&& final(w).pos == pos + layer_count(p)
                &&& film_model(final(self).conv_pre_film) == planned_film(p, data, pos, 0)
                &&& film_model(final(self).conv_post_film) == planned_film(p, data, pos, 1)
                &&& film_model(final(self).input_mixin_pre_film) == planned_film(p, data, pos, 2)
                &&& film_model(final(self).input_mixin_post_film) == planned_film(p, data, pos, 3)
                &&& film_model(final(self).activation_pre_film) == planned_film(p, data, pos, 4)
                &&& film_model(final(self).activation_post_film) == planned_film(p, data, pos, 5)
                &&& film_model(final(self).layer1x1_post_film) == planned_film(p, data, pos, 6)
                &&& film_model(final(self).head1x1_post_film) == planned_film(p, data, pos, 7)
            },
            r matches Err(e) ==> e@ == underflow_text(old(w).data@.len()),
    {
        if let Err(e) = load_planned(&mut self.conv_pre_film, w, Ghost(p), Ghost(pos), Ghost(0)) {
            return Err(e);
        }
        if let Err(e) = load_planned(&mut self.conv_post_film, w, Ghost(p), Ghost(pos), Ghost(1)) {
            return Err(e);
        }
        if let Err(e) = load_planned(
            &mut self.input_mixin_pre_film,
            w,
            Ghost(p),
            Ghost(pos),
            Ghost(2),
        ) {
            return Err(e);
        }
        if let Err(e) = load_planned(
            &mut self.input_mixin_post_film,
            w,
            Ghost(p),
            Ghost(pos),
            Ghost(3),
        ) {
            return Err(e);
        }
        if let Err(e) = load_planned(
            &mut self.activation_pre_film,
            w,
            Ghost(p),
            Ghost(pos),
            Ghost(4),
        ) {
            return Err(e);
        }
        if let Err(e) = load_planned(
            &mut self.activation_post_film,
            w,
            Ghost(p),
            Ghost(pos),
            Ghost(5),
        ) {
            return Err(e);
        }
        if let Err(e) = load_planned(
            &mut self.layer1x1_post_film,
            w,
            Ghost(p),
            Ghost(pos),
            Ghost(6),
        ) {
            return Err(e);
        }
        load_planned(&mut self.head1x1_post_film, w, Ghost(p), Ghost(pos), Ghost(7))
    }

    /// Take the weights from a list: the convolution, the contribution of the
    /// condition, the two projections, the modulations.
    pub fn set_weights(&mut self, w: &mut Weights<S>) -> (r: Result<(), String>)
        requires
            lawful::<S>(),
            old(self).wf(),
            old(self).standard_bias(),
            old(w).wf(),
        ensures
            final(self).wf(),
            final(self).standard_bias(),
            final(self).plan() == old(self).plan(),
            final(w).wf(),
            final(w).data == old(w).data,
            r is Ok <==> old(w).pos + layer_count(old(self).plan()) <= old(w).data@.len(),
            r is Ok ==> {
                &&& final(w).pos == old(w).pos + layer_count(old(self).plan())
                &&& final(self).model() == layer_from(
                    old(self).plan(),
                    old(w).data@,
                    old(w).pos as int,
                )
            },
            r matches Err(e) ==> e@ == underflow_text(old(w).data@.len()),
    {
        let ghost p = self.plan();
        let ghost pos = w.pos as int;
        proof {
            reveal_with_fuel(part_start, 5);
            lemma_part_start(p, 1, 12);
            lemma_part_start(p, 2, 12);
            lemma_part_start(p, 3, 12);
            lemma_part_start(p, 4, 12);
        }
        if let Err(e) = self.conv.set_weights(w) {
            return Err(e);
        }
        if let Err(e) = self.input_mixin.set_weights(w) {
            return Err(e);
        }
        if let Err(e) = load_projection(&mut self.layer1x1, w) {
            return Err(e);
        }
        if let Err(e) = load_projection(&mut self.head1x1, w) {
            return Err(e);
        }
        self.load_films(w, Ghost(p), Ghost(pos))
    }
}

} // verus!
