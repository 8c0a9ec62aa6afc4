//! Whether a network can run, and with which block sizes.

use crate::num::Scalar;
use crate::pure::activations::total;
use crate::pure::conv1d::Conv1D;
use crate::pure::film::{film_model, Film};
use crate::pure::layer::{layer_total, proj_model, GatingMode, Layer};
use crate::pure::layer_array::{array_fits, array_reads, array_total, LayerArray};
use crate::pure::layer_setup::{
    affine_fits, dilated_fits, layer_fits, modulation_fits, projection_fits,
};
use crate::pure::net::{
    condition_rows, net_fits, net_total, net_wired, stack_models, stack_rows, stacks_wf, WaveNet,
};
use crate::pure::nn::{product_fits, Conv1x1};
use crate::pure::post_head::{head_fits, head_total, PostHead};
use vstd::prelude::*;

verus! {

// Block sizes ================================================================

impl<S: Scalar> Conv1x1<S> {
    /// Whether blocks of up to `max` frames can be addressed.
    pub fn fits(&self, max: usize) -> (r: bool)
        ensures
            r == affine_fits(self.model(), max as nat),
    {
        product_fits(max, self.out_ch)
    }
}

impl<S: Scalar> Conv1D<S> {
    /// Whether blocks of up to `max` frames can be addressed.
    pub fn fits(&self, max: usize) -> (r: bool)
        requires
            self.wf(),
        ensures
            r == dilated_fits(self.model(), max as nat),
    {
        match self.checked_lookback() {
            Some(back) => match back.checked_add(max) {
                Some(frames) => product_fits(frames, self.in_ch) && product_fits(
                    max,
                    self.out_ch,
                ),
                None => false,
            },
            None => false,
        }
    }
}

fn film_fits_block<S: Scalar>(film: &Option<Film<S>>, max: usize) -> (r: bool)
    ensures
        r == modulation_fits(film_model(*film), max as nat),
{
    match film {
        Some(f) => f.conv.fits(max) && product_fits(max, f.dim),
        None => true,
    }
}

fn projection_fits_block<S: Scalar>(proj: &Option<Conv1x1<S>>, max: usize) -> (r: bool)
    ensures
        r == projection_fits(proj_model(*proj), max as nat),
{
    match proj {
        Some(p) => p.fits(max),
        None => true,
    }
}

impl<S: Scalar> Layer<S> {
    /// Whether blocks of up to `max` frames can be addressed.
    pub fn fits(&self, max: usize) -> (r: bool)
        requires
            self.wf(),
        ensures
            r == layer_fits(self.model(), max as nat),
    {
        self.conv.fits(max) && self.input_mixin.fits(max) && projection_fits_block(
            &self.layer1x1,
            max,
        ) && projection_fits_block(&self.head1x1, max) && film_fits_block(
            &self.conv_pre_film,
            max,
        ) && film_fits_block(&self.conv_post_film, max) && film_fits_block(
            &self.input_mixin_pre_film,
            max,
        ) && film_fits_block(&self.input_mixin_post_film, max) && film_fits_block(
            &self.activation_pre_film,
            max,
        ) && film_fits_block(&self.activation_post_film, max) && film_fits_block(
            &self.layer1x1_post_film,
            max,
        ) && film_fits_block(&self.head1x1_post_film, max) && product_fits(max, self.channels)
    }
}

impl<S: Scalar> LayerArray<S> {
    /// Whether blocks of up to `max` frames can be addressed.
    pub fn fits(&self, max: usize) -> (r: bool)
        requires
            self.wf(),
        ensures
            r == array_fits(self.model(), max as nat),
    {
        let ghost m = self.model();
        let mut i: usize = 0;
        while i < self.layers.len()
            invariant
                self.wf(),
                m == self.model(),
                i <= self.layers@.len(),
                forall|j: int| 0 <= j < i ==> layer_fits(#[trigger] m.layers[j], max as nat),
            decreases self.layers@.len() - i,
        {
            assert(m.layers[i as int] == self.layers@[i as int].model());
            if !self.layers[i].fits(max) {
                return false;
            }
            i += 1;
        }
        self.rechannel.fits(max) && self.head_rechannel.fits(max) && product_fits(
            max,
            self.head_output_size,
        )
    }

    /// Whether this stack can read an input and a condition with these
    /// channels.
    pub fn reads(&self, rows: usize, condition: usize) -> (r: bool)
        requires
            self.wf(),
        ensures
            r == array_reads(self.model(), rows as nat, condition as nat),
    {
        let ghost m = self.model();
        let mut i: usize = 0;
        while i < self.layers.len()
            invariant
                m == self.model(),
                i <= self.layers@.len(),
                forall|j: int|
                    0 <= j < i ==> (#[trigger] m.layers[j]).mixin.inputs <= condition,
            decreases self.layers@.len() - i,
        {
            assert(m.layers[i as int] == self.layers@[i as int].model());
            if self.layers[i].input_mixin.in_ch > condition {
                return false;
            }
            i += 1;
        }
        self.rechannel.in_ch <= rows
    }

    /// Whether every activation has a value everywhere.
    pub fn is_total(&self) -> (r: bool)
        ensures
            r == array_total(self.model()),
    {
        let ghost m = self.model();
        let mut i: usize = 0;
        while i < self.layers.len()
            invariant
                m == self.model(),
                i <= self.layers@.len(),
                forall|j: int| 0 <= j < i ==> layer_total(#[trigger] m.layers[j]),
            decreases self.layers@.len() - i,
        {
            assert(m.layers[i as int] == self.layers@[i as int].model());
            if !self.layers[i].is_total() {
                return false;
            }
            i += 1;
        }
        true
    }
}

impl<S: Scalar> Layer<S> {
    /// Whether every activation has a value everywhere.
    pub fn is_total(&self) -> (r: bool)
        ensures
            r == layer_total(self.model()),
    {
        if !self.activation.is_total() {
            return false;
        }
        match self.gating {
            GatingMode::Ungated => true,
            _ => match &self.secondary_activation {
                Some(a) => a.is_total(),
                None => true,
            },
        }
    }
}

impl<S: Scalar> PostHead<S> {
    /// Whether blocks of up to `max` frames can be addressed.
    pub fn fits(&self, max: usize) -> (r: bool)
        requires
            self.wf(),
        ensures
            r == head_fits(self.model(), max as nat),
    {
        let ghost m = self.model();
        let mut i: usize = 0;
        while i < self.convs.len()
            invariant
                self.wf(),
                m == self.model(),
                i <= self.convs@.len(),
                forall|j: int|
                    0 <= j < i ==> dilated_fits((#[trigger] m.stages[j]).1, max as nat),
            decreases self.convs@.len() - i,
        {
            assert(m.stages[i as int].1 == self.convs@[i as int].model());
            assert(self.convs@[i as int].wf());
            if !self.convs[i].fits(max) {
                return false;
            }
            i += 1;
        }
        product_fits(max, self.in_channels)
    }

    /// Whether every activation has a value everywhere.
    pub fn is_total(&self) -> (r: bool)
        requires
            self.wf(),
        ensures
            r == head_total(self.model()),
    {
        let ghost m = self.model();
        let mut i: usize = 0;
        while i < self.activations.len()
            invariant
                self.wf(),
                m == self.model(),
                i <= self.activations@.len(),
                forall|j: int| 0 <= j < i ==> total((#[trigger] m.stages[j]).0),
            decreases self.activations@.len() - i,
        {
            assert(m.stages[i as int].0 == self.activations@[i as int].model());
            if !self.activations[i].is_total() {
                return false;
            }
            i += 1;
        }
        true
    }
}

impl<S: Scalar> WaveNet<S> {
    /// Whether blocks of up to `max` frames can be addressed.
    pub fn fits(&self, max: usize) -> (r: bool)
        requires
            self.wf(),
        ensures
            r == net_fits(self.model(), max as nat),
        decreases self,
    {
        let ghost m = self.model();
        let mut i: usize = 0;
        while i < self.layer_arrays.len()
            invariant
                stacks_wf(self.layer_arrays@),
                m.arrays == stack_models(self.layer_arrays@),
                m == self.model(),
                i <= self.layer_arrays@.len(),
                forall|j: int| 0 <= j < i ==> array_fits(#[trigger] m.arrays[j], max as nat),
            decreases self.layer_arrays@.len() - i,
        {
            assert(m.arrays[i as int] == self.layer_arrays@[i as int].model());
            assert(self.layer_arrays@[i as int].wf());
            if !self.layer_arrays[i].fits(max) {
                return false;
            }
            i += 1;
        }
        if let Some(h) = &self.post_head {
            if !h.fits(max) {
                return false;
            }
        }
        if let Some(cd) = &self.condition_dsp {
            if !cd.fits(max) {
                return false;
            }
        }
        product_fits(max, self.in_channels) && product_fits(max, self.out_channels)
    }

    /// Whether every part finds the channels that it reads.
    pub fn is_wired(&self) -> (r: bool)
        requires
            self.wf(),
        ensures
            r == net_wired(self.model()),
        decreases self,
    {
        let ghost m = self.model();
        proof {
            reveal_with_fuel(WaveNet::model, 2);
        }
        let condition = match &self.condition_dsp {
            Some(cd) => cd.out_channels,
            None => self.in_channels,
        };
        let mut i: usize = 0;
        while i < self.layer_arrays.len()
            invariant
                stacks_wf(self.layer_arrays@),
                m.arrays == stack_models(self.layer_arrays@),
                m == self.model(),
                m.inputs == self.in_channels,
                condition == condition_rows(m),
                i <= self.layer_arrays@.len(),
                forall|j: int|
                    0 <= j < i ==> array_reads(
                        m.arrays[j],
                        #[trigger] stack_rows(m, j),
                        condition_rows(m),
                    ),
                forall|j: int|
                    0 <= j < i && j < m.arrays.len() - 1 ==> (#[trigger] m.arrays[j]).layers.len()
                        > 0,
            decreases self.layer_arrays@.len() - i,
        {
            assert(m.arrays[i as int] == self.layer_arrays@[i as int].model());
            assert(self.layer_arrays@[i as int].wf());
            let rows = if i == 0 {
                self.in_channels
            } else {
                assert(m.arrays[i - 1] == self.layer_arrays@[i - 1].model());
                self.layer_arrays[i - 1].rechannel.out_ch
            };
            assert(rows == stack_rows(m, i as int));
            if !self.layer_arrays[i].reads(rows, condition) {
                return false;
            }
            if i + 1 < self.layer_arrays.len() && self.layer_arrays[i].layers.len() == 0 {
                assert(m.arrays[i as int].layers.len() == 0);
                return false;
            }
            i += 1;
        }
        if let Some(cd) = &self.condition_dsp {
            if !cd.is_wired() {
                return false;
            }
        }
        true
    }

    /// Whether every activation has a value everywhere.
    pub fn is_total(&self) -> (r: bool)
        requires
            self.wf(),
        ensures
            r == net_total(self.model()),
        decreases self,
    {
        let ghost m = self.model();
        proof {
            reveal_with_fuel(WaveNet::model, 2);
        }
        let mut i: usize = 0;
        while i < self.layer_arrays.len()
            invariant
                m.arrays == stack_models(self.layer_arrays@),
                m == self.model(),
                i <= self.layer_arrays@.len(),
                forall|j: int| 0 <= j < i ==> array_total(#[trigger] m.arrays[j]),
            decreases self.layer_arrays@.len() - i,
        {
            assert(m.arrays[i as int] == self.layer_arrays@[i as int].model());
            if !self.layer_arrays[i].is_total() {
                return false;
            }
            i += 1;
        }
        if let Some(h) = &self.post_head {
            if !h.is_total() {
                return false;
            }
        }
        if let Some(cd) = &self.condition_dsp {
            if !cd.is_total() {
                return false;
            }
        }
        true
    }
}

} // verus!
