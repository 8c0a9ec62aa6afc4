//! Inference for Neural Amp Modeler (`.nam`) models of guitar amplifiers and
//! pedals, with its behaviour stated in contracts and proved.
//!
//! A model file is a JSON document that holds the configuration and the
//! weights of a network. [`NamModel`] loads such a file and runs the network on
//! blocks of mono audio. The engine is in [`pure`]: convolutional networks
//! (`WaveNet`) with gating, modulation, projections, nested networks and
//! selectable sizes, recurrent networks (`LSTM`), and containers of models
//! (`SlimmableContainer`).
//!
//! The engine computes with any number type that has the operations of
//! [`num::Scalar`]; what it computes is stated in those operations, in the
//! order in which they are applied.

use crate::num::{lawful, Scalar};
use crate::pure::dsp::{dsp_total, selected, selection_changes};
use crate::pure::model::{
    at_least_one, bytes_of, chunk_run, model_inputs, model_outputs, ready, selectable, settles,
    stream_defined, text_of, warm, ModelFile, PureNamModel, DEFAULT_MAX_BUFFER_SIZE,
};
use crate::text::glue;
use vstd::prelude::*;
use vstd::string::*;

pub mod json;
pub mod laws;
pub mod num;
pub mod pure;
pub mod render;
pub mod text;

verus! {

/// Metadata about a loaded model.
#[derive(Debug, Clone)]
pub struct ModelMetadata<D> {
    /// Sample rate the model was trained at, or `None` if unknown.
    pub expected_sample_rate: Option<D>,
    /// Loudness in dB, if the model provides it.
    pub loudness: Option<D>,
    /// Input level in dBu, if the model provides it.
    pub input_level: Option<D>,
    /// Output level in dBu, if the model provides it.
    pub output_level: Option<D>,
    /// Number of input channels.
    pub input_channels: usize,
    /// Number of output channels.
    pub output_channels: usize,
}

/// A loaded Neural Amp Modeler model ready for inference.
pub struct NamModel<S: Scalar> {
    /// The model.
    pub inner: PureNamModel<S>,
}

/// The complaint about a file that cannot be loaded.
pub open spec fn load_text(e: Seq<char>) -> Seq<char> {
    "Failed to load NAM model: "@ + e
}

impl<S: Scalar> NamModel<S> {
    /// The model is sound, and once it has been reset it can run.
    pub open spec fn wf(&self) -> bool {
        self.inner.wf()
    }

    /// What this model says of itself.
    pub open spec fn file(&self) -> ModelFile<S> {
        self.inner.file()
    }

    /// Load a model from the raw bytes of a `.nam` file (UTF-8 JSON).
    pub fn from_bytes(bytes: &[u8]) -> (r: Result<Self, String>)
        requires
            lawful::<S>(),
        ensures
            match r {
                Ok(m) => {
                    &&& m.wf()
                    &&& m.inner.max_buffer_size == 0
                    &&& bytes_of::<S>(bytes@) == Ok::<ModelFile<S>, Seq<char>>(m.file())
                },
                Err(e) => bytes_of::<S>(bytes@) matches Err(cause) && e@ == load_text(cause),
            },
    {
        match PureNamModel::from_bytes(bytes) {
            Ok(inner) => Ok(NamModel { inner }),
            Err(e) => Err(glue("Failed to load NAM model: ", e.as_str())),
        }
    }

    /// Load a model from `.nam` JSON text.
    pub fn from_json(json: &str) -> (r: Result<Self, String>)
        requires
            lawful::<S>(),
        ensures
            match r {
                Ok(m) => {
                    &&& m.wf()
                    &&& m.inner.max_buffer_size == 0
                    &&& text_of::<S>(json@) == Ok::<ModelFile<S>, Seq<char>>(m.file())
                },
                Err(e) => text_of::<S>(json@) matches Err(cause) && e@ == load_text(cause),
            },
    {
        match PureNamModel::from_json(json) {
            Ok(inner) => Ok(NamModel { inner }),
            Err(e) => Err(glue("Failed to load NAM model: ", e.as_str())),
        }
    }

    /// Whether the model can be reset for blocks of up to `max_buffer_size`
    /// samples: its parts fit each other, and its buffers can be addressed.
    pub fn can_reset(&self, max_buffer_size: usize) -> (r: bool)
        requires
            self.wf(),
        ensures
            r == ready(self.inner.dsp.model(), at_least_one(max_buffer_size) as nat),
    {
        self.inner.can_reset(max_buffer_size)
    }

    /// Reset the model for a given sample rate and buffer size, then prewarm.
    pub fn reset(&mut self, sample_rate: S::Wide, max_buffer_size: usize)
        requires
            lawful::<S>(),
            old(self).wf(),
            ready(old(self).inner.dsp.model(), at_least_one(max_buffer_size) as nat),
            settles(old(self).inner.dsp.model(), at_least_one(max_buffer_size) as nat),
        ensures
            final(self).wf(),
            final(self).file() == old(self).file(),
            final(self).inner.max_buffer_size == at_least_one(max_buffer_size),
            final(self).inner.dsp.state() == warm(
                old(self).inner.dsp.model(),
                at_least_one(max_buffer_size) as nat,
            ),
    {
        self.inner.reset(sample_rate, max_buffer_size);
    }

    /// Run inference on a block of mono audio.
    ///
    /// `input` and `output` must be the same length.
    pub fn process(&mut self, input: &[S::Wide], output: &mut [S::Wide])
        requires
            lawful::<S>(),
            old(self).wf(),
            old(self).inner.max_buffer_size == 0 ==> {
                &&& ready(old(self).inner.dsp.model(), DEFAULT_MAX_BUFFER_SIZE as nat)
                &&& settles(old(self).inner.dsp.model(), DEFAULT_MAX_BUFFER_SIZE as nat)
            },
            stream_defined(
                old(self).inner.dsp.model(),
                old(self).inner.entry_state(),
                input@,
                old(self).inner.block_size(),
            ),
            input@.len() == old(output)@.len(),
        ensures
            final(self).wf(),
            final(self).file() == old(self).file(),
            final(self).inner.max_buffer_size == old(self).inner.block_size(),
            ({
                let run = chunk_run(
                    old(self).inner.dsp.model(),
                    old(self).inner.entry_state(),
                    input@,
                    old(self).inner.block_size(),
                );
                &&& final(self).inner.dsp.state() == run.state
                &&& final(output)@ == run.output
            }),
    {
        self.inner.process(input, output);
    }

    /// Get the sample rate the model was trained at, or `None` if unknown.
    pub fn expected_sample_rate(&self) -> (r: Option<S::Wide>)
        ensures
            r == self.file().rate,
    {
        self.inner.expected_sample_rate()
    }

    /// Get the model's loudness in dB, if available.
    pub fn loudness(&self) -> (r: Option<S::Wide>)
        ensures
            r == self.file().loudness,
    {
        self.inner.loudness()
    }

    /// Get the input level in dBu, if available.
    pub fn input_level(&self) -> (r: Option<S::Wide>)
        ensures
            r == self.file().input_level,
    {
        self.inner.input_level()
    }

    /// Get the output level in dBu, if available.
    pub fn output_level(&self) -> (r: Option<S::Wide>)
        ensures
            r == self.file().output_level,
    {
        self.inner.output_level()
    }

    /// Number of input channels (typically 1 for guitar models).
    pub fn input_channels(&self) -> (r: usize)
        requires
            self.wf(),
        ensures
            r == model_inputs(self.file().dsp),
    {
        self.inner.input_channels()
    }

    /// Number of output channels (typically 1 for guitar models).
    pub fn output_channels(&self) -> (r: usize)
        requires
            self.wf(),
        ensures
            r == model_outputs(self.file().dsp),
    {
        self.inner.output_channels()
    }

    /// Get all available metadata for this model.
    pub fn metadata(&self) -> (r: ModelMetadata<S::Wide>)
        requires
            self.wf(),
        ensures
            r.expected_sample_rate == self.file().rate,
            r.loudness == self.file().loudness,
            r.input_level == self.file().input_level,
            r.output_level == self.file().output_level,
            r.input_channels == model_inputs(self.file().dsp),
            r.output_channels == model_outputs(self.file().dsp),
    {
        ModelMetadata {
            expected_sample_rate: self.expected_sample_rate(),
            loudness: self.loudness(),
            input_level: self.input_level(),
            output_level: self.output_level(),
            input_channels: self.input_channels(),
            output_channels: self.output_channels(),
        }
    }

    /// Whether the model takes all samples: every activation has a value
    /// everywhere.
    pub fn is_total(&self) -> (r: bool)
        requires
            self.wf(),
        ensures
            r == dsp_total(self.inner.dsp.model()),
    {
        self.inner.is_total()
    }

    /// Whether the size that a ratio selects, where that is another one, takes
    /// all samples.
    pub fn selects_total(&self, val: S::Wide) -> (r: bool)
        requires
            lawful::<S>(),
            self.wf(),
        ensures
            r == (selection_changes(self.inner.dsp.model(), val) ==> dsp_total(
                selected(self.inner.dsp.model(), val),
            )),
    {
        self.inner.selects_total(val)
    }

    /// Whether the size that a ratio selects can run with the current buffer
    /// size.
    pub fn can_select(&self, val: S::Wide) -> (r: bool)
        requires
            lawful::<S>(),
            self.wf(),
        ensures
            r == selectable(
                self.inner.dsp.model(),
                val,
                self.inner.max_buffer_size as nat,
            ),
    {
        self.inner.can_select(val)
    }

    /// Select the slimmable size for models that support dynamic size
    /// reduction (`SlimmableContainer` and slimmable WaveNets): `val` in
    /// [0.0, 1.0], where 1.0 is full size (the default). Returns `true`
    /// if the model is slimmable, `false` for ordinary models (no-op).
    pub fn set_slimmable_size(&mut self, val: S::Wide) -> (r: bool)
        requires
            lawful::<S>(),
            old(self).wf(),
            selectable(
                old(self).inner.dsp.model(),
                val,
                old(self).inner.max_buffer_size as nat,
            ),
            old(self).inner.max_buffer_size > 0 && selection_changes(
                old(self).inner.dsp.model(),
                val,
            ) ==> settles(
                selected(old(self).inner.dsp.model(), val),
                old(self).inner.max_buffer_size as nat,
            ),
        ensures
            final(self).wf(),
            r == (old(self).file().dsp is Container || old(self).file().dsp is Slim),
            final(self).inner.max_buffer_size == old(self).inner.max_buffer_size,
            final(self).file() == (ModelFile {
                dsp: selected(old(self).file().dsp, val),
                ..old(self).file()
            }),
            !selection_changes(old(self).file().dsp, val) ==> *final(self) == *old(self),
            selection_changes(old(self).file().dsp, val) && old(self).inner.max_buffer_size > 0
                ==> final(self).inner.dsp.state() == warm(
                selected(old(self).file().dsp, val),
                old(self).inner.max_buffer_size as nat,
            ),
    {
        self.inner.set_slimmable_size(val)
    }
}

} // verus!
