//! A loaded model.

use crate::json::{json_of, read_json, Json, Tree};
use crate::num::{lawful, Sample, Scalar};
use crate::pure::config::repeat;
use crate::pure::dsp::{
    dsp_defined, dsp_fits, dsp_inputs, dsp_outputs, dsp_reach, dsp_rest, dsp_run, dsp_runs,
    dsp_total, leaf, selected, selection_changes, Dsp, DspModel, DspRun, DspState,
};
use crate::pure::dsp_config::{build_dsp, dsp_of, read_real, real_at, MINUS_ONE_BITS};
use crate::pure::net::lemma_net_len;
use crate::pure::wavenet::mono_block;
use crate::text::glue;
use vstd::prelude::*;
use vstd::string::*;
use vstd::utf8::{decode_utf8, valid_utf8};

verus! {

/// The block size of a model that has not been reset.
pub const DEFAULT_MAX_BUFFER_SIZE: usize = 4096;

/// The bit pattern of zero in binary64.
pub const ZERO_BITS: u64 = 0;

// What a file says ===========================================================

/// What a model file says.
pub struct ModelFile<S: Scalar> {
    /// The model.
    pub dsp: DspModel<S>,
    /// The sample rate that it was made for.
    pub rate: Option<S::Wide>,
    /// Its loudness in dB.
    pub loudness: Option<S::Wide>,
    /// The input level in dBu.
    pub input_level: Option<S::Wide>,
    /// The output level in dBu.
    pub output_level: Option<S::Wide>,
}

/// A sample rate, unless it is below zero or not a number.
pub open spec fn rate_of<D: Sample>(value: Tree) -> Option<D> {
    match real_at::<D>(value, "sample_rate"@) {
        Some(sr) => if D::from_bits_spec(ZERO_BITS).le_spec(sr) {
            Some(sr)
        } else {
            None
        },
        None => None,
    }
}

/// A number of the metadata.
pub open spec fn meta_of<D: Sample>(value: Tree, key: Seq<char>) -> Option<D> {
    match value.get("metadata"@) {
        Some(m) => real_at::<D>(m, key),
        None => None,
    }
}

/// What a document says.
pub open spec fn file_of<S: Scalar>(value: Tree) -> Result<ModelFile<S>, Seq<char>> {
    match dsp_of::<S>(value) {
        Err(e) => Err(e),
        Ok(dsp) => Ok(
            ModelFile {
                dsp,
                rate: rate_of::<S::Wide>(value),
                loudness: meta_of::<S::Wide>(value, "loudness"@),
                input_level: meta_of::<S::Wide>(value, "input_level_dbu"@),
                output_level: meta_of::<S::Wide>(value, "output_level_dbu"@),
            },
        ),
    }
}

/// What a text says.
pub open spec fn text_of<S: Scalar>(json: Seq<char>) -> Result<ModelFile<S>, Seq<char>> {
    match json_of(json) {
        Err(e) => Err("invalid JSON: "@ + e),
        Ok(value) => file_of::<S>(value),
    }
}

/// What bytes say.
pub open spec fn bytes_of<S: Scalar>(bytes: Seq<u8>) -> Result<ModelFile<S>, Seq<char>> {
    if valid_utf8(bytes) {
        text_of::<S>(decode_utf8(bytes))
    } else {
        Err("invalid UTF-8: "@ + utf8_failure(bytes))
    }
}

/// The words in which the standard library complains about bytes that are not
/// UTF-8.
pub uninterp spec fn utf8_failure(bytes: Seq<u8>) -> Seq<char>;

/// `std::str::from_utf8`: the text that the bytes encode, or the error in
/// words. The contract claims that the call succeeds on exactly the UTF-8
/// encodings, and that the words depend on the bytes alone.
#[verifier::external_body]
fn utf8_text(bytes: &[u8]) -> (r: Result<&str, String>)
    ensures
        match r {
            Ok(s) => valid_utf8(bytes@) && s@ == decode_utf8(bytes@),
            Err(e) => !valid_utf8(bytes@) && e@ == utf8_failure(bytes@),
        },
{
    std::str::from_utf8(bytes).map_err(|e| e.to_string())
}

// Running ====================================================================

/// `n` samples of silence.
pub open spec fn quiet_block<D: Sample>(n: nat) -> Seq<D> {
    Seq::new(n, |i: int| D::from_bits_spec(ZERO_BITS))
}

/// What a model remembers after `k` blocks of silence of `max` samples each.
pub open spec fn after_silence<S: Scalar>(
    m: DspModel<S>,
    st: DspState<S>,
    max: nat,
    k: nat,
) -> DspState<S>
    decreases k,
{
    if k == 0 {
        st
    } else {
        dsp_run(
            m,
            after_silence(m, st, max, (k - 1) as nat),
            quiet_block::<S::Wide>(max),
        ).state
    }
}

/// How many blocks of `max` samples hold `reach` samples.
pub open spec fn blocks_for(reach: int, max: int) -> nat {
    ((reach + max - 1) / max) as nat
}

/// What a model remembers after a reset: silence has brought it to rest.
pub open spec fn warm<S: Scalar>(m: DspModel<S>, max: nat) -> DspState<S> {
    after_silence(m, dsp_rest(m), max, blocks_for(dsp_reach(m), max as int))
}

/// What a model makes of samples, in blocks of up to `max` samples.
pub open spec fn chunk_run<S: Scalar>(
    m: DspModel<S>,
    st: DspState<S>,
    x: Seq<S::Wide>,
    max: nat,
) -> DspRun<S>
    decreases x.len(),
{
    if x.len() == 0 || max == 0 {
        DspRun { state: st, output: Seq::empty() }
    } else {
        let n = if x.len() < max {
            x.len()
        } else {
            max
        };
        let first = dsp_run(m, st, x.take(n as int));
        let rest = chunk_run(m, first.state, x.skip(n as int), max);
        DspRun { state: rest.state, output: first.output + rest.output }
    }
}

/// Every activation of a model has a value at everything that silence brings it
/// on the way to rest.
pub open spec fn settles<S: Scalar>(m: DspModel<S>, max: nat) -> bool {
    forall|k: nat|
        k < blocks_for(dsp_reach(m), max as int) ==> dsp_defined(
            m,
            #[trigger] after_silence(m, dsp_rest(m), max, k),
            quiet_block::<S::Wide>(max),
        )
}

/// Every activation of a model has a value at everything that samples bring it,
/// in blocks of up to `max` samples.
pub open spec fn stream_defined<S: Scalar>(
    m: DspModel<S>,
    st: DspState<S>,
    x: Seq<S::Wide>,
    max: nat,
) -> bool
    decreases x.len(),
{
    if x.len() == 0 || max == 0 {
        true
    } else {
        let n = if x.len() < max {
            x.len()
        } else {
            max
        };
        &&& dsp_defined(m, st, x.take(n as int))
        &&& stream_defined(m, dsp_run(m, st, x.take(n as int)).state, x.skip(n as int), max)
    }
}

/// A model that blocks of up to `max` samples can be run through.
pub open spec fn ready<S: Scalar>(m: DspModel<S>, max: nat) -> bool {
    dsp_runs(m) && dsp_fits(m, max)
}

/// The block size for a request: at least one sample.
pub open spec fn at_least_one(n: usize) -> usize {
    if n < 1 {
        1
    } else {
        n
    }
}

/// A loaded model.
pub struct PureNamModel<S: Scalar> {
    /// The model.
    pub dsp: Dsp<S>,
    /// The sample rate that it was made for.
    pub expected_sample_rate: Option<S::Wide>,
    /// Its loudness in dB.
    pub loudness: Option<S::Wide>,
    /// The input level in dBu.
    pub input_level: Option<S::Wide>,
    /// The output level in dBu.
    pub output_level: Option<S::Wide>,
    /// The longest block there is room for; zero before the first reset.
    pub max_buffer_size: usize,
}

impl<S: Scalar> PureNamModel<S> {
    /// What this model says of itself.
    pub open spec fn file(&self) -> ModelFile<S> {
        ModelFile {
            dsp: self.dsp.model(),
            rate: self.expected_sample_rate,
            loudness: self.loudness,
            input_level: self.input_level,
            output_level: self.output_level,
        }
    }

    /// The model is sound, and once it has been reset it can run.
    pub open spec fn wf(&self) -> bool {
        &&& self.dsp.wf()
        &&& self.max_buffer_size > 0 ==> {
            &&& self.dsp.sized(self.max_buffer_size as nat)
            &&& dsp_runs(self.dsp.model())
        }
    }

    /// The block size with which samples are processed.
    pub open spec fn block_size(&self) -> nat {
        if self.max_buffer_size == 0 {
            DEFAULT_MAX_BUFFER_SIZE as nat
        } else {
            self.max_buffer_size as nat
        }
    }

    /// What the model remembers when the next samples are processed.
    pub open spec fn entry_state(&self) -> DspState<S> {
        if self.max_buffer_size == 0 {
            warm(self.dsp.model(), DEFAULT_MAX_BUFFER_SIZE as nat)
        } else {
            self.dsp.state()
        }
    }

    /// Load a model from the bytes of a model file.
    pub fn from_bytes(bytes: &[u8]) -> (r: Result<Self, String>)
        requires
            lawful::<S>(),
        ensures
            match r {
                Ok(m) => {
                    &&& m.wf()
                    &&& m.max_buffer_size == 0
                    &&& bytes_of::<S>(bytes@) == Ok::<ModelFile<S>, Seq<char>>(m.file())
                },
                Err(e) => bytes_of::<S>(bytes@) == Err::<ModelFile<S>, Seq<char>>(e@),
            },
    {
        match utf8_text(bytes) {
            Ok(json) => Self::from_json(json),
            Err(e) => Err(glue("invalid UTF-8: ", e.as_str())),
        }
    }

    /// Load a model from the text of a model file.
    pub fn from_json(json: &str) -> (r: Result<Self, String>)
        requires
            lawful::<S>(),
        ensures
            match r {
                Ok(m) => {
                    &&& m.wf()
                    &&& m.max_buffer_size == 0
                    &&& text_of::<S>(json@) == Ok::<ModelFile<S>, Seq<char>>(m.file())
                },
                Err(e) => text_of::<S>(json@) == Err::<ModelFile<S>, Seq<char>>(e@),
            },
    {
        match read_json(json) {
            Ok(value) => Self::from_value(&value),
            Err(e) => Err(glue("invalid JSON: ", e.as_str())),
        }
    }

    /// Load a model from a document.
    pub fn from_value(value: &Json) -> (r: Result<Self, String>)
        requires
            lawful::<S>(),
        ensures
            match r {
                Ok(m) => {
                    &&& m.wf()
                    &&& m.max_buffer_size == 0
                    &&& file_of::<S>(value@) == Ok::<ModelFile<S>, Seq<char>>(m.file())
                },
                Err(e) => file_of::<S>(value@) == Err::<ModelFile<S>, Seq<char>>(e@),
            },
    {
        let dsp = match build_dsp::<S>(value) {
            Ok(d) => d,
            Err(e) => {
                return Err(e);
            },
        };
        let expected_sample_rate = match read_real::<S>(value, "sample_rate") {
            Some(sr) => if S::Wide::from_bits(ZERO_BITS).le(sr) {
                Some(sr)
            } else {
                None
            },
            None => None,
        };
        let (loudness, input_level, output_level) = match value.get("metadata") {
            Some(m) => (
                read_real::<S>(m, "loudness"),
                read_real::<S>(m, "input_level_dbu"),
                read_real::<S>(m, "output_level_dbu"),
            ),
            None => (None, None, None),
        };
        Ok(
            PureNamModel {
                dsp,
                expected_sample_rate,
                loudness,
                input_level,
                output_level,
                max_buffer_size: 0,
            },
        )
    }

    /// Whether the model can be reset for blocks of up to `max_buffer_size`
    /// samples.
    pub fn can_reset(&self, max_buffer_size: usize) -> (r: bool)
        requires
            self.wf(),
        ensures
            r == ready(self.dsp.model(), at_least_one(max_buffer_size) as nat),
    {
        let max = if max_buffer_size < 1 {
            1
        } else {
            max_buffer_size
        };
        self.dsp.runs() && self.dsp.fits(max)
    }

    /// Forget everything heard, make room for blocks of up to
    /// `max_buffer_size` samples, and bring the model to rest with silence.
    /// The sample rate plays no part.
    pub fn reset(&mut self, _sample_rate: S::Wide, max_buffer_size: usize)
        requires
            lawful::<S>(),
            old(self).wf(),
            ready(old(self).dsp.model(), at_least_one(max_buffer_size) as nat),
            settles(old(self).dsp.model(), at_least_one(max_buffer_size) as nat),
        ensures
            final(self).wf(),
            final(self).file() == old(self).file(),
            final(self).max_buffer_size == at_least_one(max_buffer_size),
            final(self).dsp.state() == warm(
                old(self).dsp.model(),
                at_least_one(max_buffer_size) as nat,
            ),
    {
        let max = if max_buffer_size < 1 {
            1
        } else {
            max_buffer_size
        };
        self.max_buffer_size = max;
        self.dsp.set_max_buffer_size(max);
        warm_up(&mut self.dsp, max);
    }

    /// Run the model on a block of samples. Blocks longer than the model has
    /// room for are processed in pieces. A model that has not been reset is
    /// reset first.
    pub fn process(&mut self, input: &[S::Wide], output: &mut [S::Wide])
        requires
            lawful::<S>(),
            old(self).wf(),
            old(self).max_buffer_size == 0 ==> {
                &&& ready(old(self).dsp.model(), DEFAULT_MAX_BUFFER_SIZE as nat)
                &&& settles(old(self).dsp.model(), DEFAULT_MAX_BUFFER_SIZE as nat)
            },
            stream_defined(
                old(self).dsp.model(),
                old(self).entry_state(),
                input@,
                old(self).block_size(),
            ),
            input@.len() == old(output)@.len(),
        ensures
            final(self).wf(),
            final(self).file() == old(self).file(),
            final(self).max_buffer_size == old(self).block_size(),
            ({
                let run = chunk_run(
                    old(self).dsp.model(),
                    old(self).entry_state(),
                    input@,
                    old(self).block_size(),
                );
                &&& final(self).dsp.state() == run.state
                &&& final(output)@ == run.output
            }),
    {
        if self.max_buffer_size == 0 {
            let rate = match self.expected_sample_rate {
                Some(sr) => sr,
                None => S::Wide::from_bits(MINUS_ONE_BITS),
            };
            self.reset(rate, DEFAULT_MAX_BUFFER_SIZE);
        }
        run_chunks(&mut self.dsp, input, output, self.max_buffer_size);
    }

    /// Run the model on a block of numbers of its own kind.
    pub fn process_f32(&mut self, input: &[S], output: &mut [S])
        requires
            lawful::<S>(),
            old(self).wf(),
            old(self).max_buffer_size == 0 ==> {
                &&& ready(old(self).dsp.model(), DEFAULT_MAX_BUFFER_SIZE as nat)
                &&& settles(old(self).dsp.model(), DEFAULT_MAX_BUFFER_SIZE as nat)
            },
            stream_defined(
                old(self).dsp.model(),
                old(self).entry_state(),
                widened(input@),
                old(self).block_size(),
            ),
            input@.len() == old(output)@.len(),
        ensures
            final(self).wf(),
            final(self).file() == old(self).file(),
            final(self).max_buffer_size == old(self).block_size(),
            ({
                let run = chunk_run(
                    old(self).dsp.model(),
                    old(self).entry_state(),
                    widened(input@),
                    old(self).block_size(),
                );
                &&& final(self).dsp.state() == run.state
                &&& final(output)@ == narrowed::<S>(run.output)
            }),
    {
        let mut wide_in: Vec<S::Wide> = Vec::new();
        let mut i: usize = 0;
        while i < input.len()
            invariant
                lawful::<S>(),
                i <= input@.len(),
                wide_in@.len() == i,
                forall|k: int| 0 <= k < i ==> #[trigger] wide_in@[k] == input@[k].widen_spec(),
            decreases input@.len() - i,
        {
            wide_in.push(input[i].widen());
            i += 1;
        }
        assert(wide_in@ =~= widened(input@));
        let mut wide_out = repeat(S::Wide::from_bits(ZERO_BITS), output.len());
        proof {
            lemma_chunks_len(
                self.dsp.model(),
                self.entry_state(),
                wide_in@,
                self.block_size(),
            );
        }
        self.process(wide_in.as_slice(), wide_out.as_mut_slice());
        let mut j: usize = 0;
        while j < output.len()
            invariant
                lawful::<S>(),
                j <= output@.len(),
                output@.len() == wide_out@.len(),
                forall|k: int|
                    0 <= k < j ==> #[trigger] output@[k] == S::narrow_spec(wide_out@[k]),
            decreases output@.len() - j,
        {
            output[j] = S::narrow(wide_out[j]);
            j += 1;
        }
        assert(output@ =~= narrowed::<S>(wide_out@));
    }

    /// The sample rate that the model was made for, where it is known.
    pub fn expected_sample_rate(&self) -> (r: Option<S::Wide>)
        ensures
            r == self.file().rate,
    {
        self.expected_sample_rate
    }

    /// The loudness in dB, where it is known.
    pub fn loudness(&self) -> (r: Option<S::Wide>)
        ensures
            r == self.file().loudness,
    {
        self.loudness
    }

    /// The input level in dBu, where it is known.
    pub fn input_level(&self) -> (r: Option<S::Wide>)
        ensures
            r == self.file().input_level,
    {
        self.input_level
    }

    /// The output level in dBu, where it is known.
    pub fn output_level(&self) -> (r: Option<S::Wide>)
        ensures
            r == self.file().output_level,
    {
        self.output_level
    }

    /// Number of input channels.
    pub fn input_channels(&self) -> (r: usize)
        requires
            self.wf(),
        ensures
            r == model_inputs(self.dsp.model()),
    {
        match &self.dsp {
            Dsp::Container { .. } => 1,
            d => d.in_channels(),
        }
    }

    /// Number of output channels.
    pub fn output_channels(&self) -> (r: usize)
        requires
            self.wf(),
        ensures
            r == model_outputs(self.dsp.model()),
    {
        match &self.dsp {
            Dsp::Container { .. } => 1,
            d => d.out_channels(),
        }
    }

    /// Whether every activation has a value everywhere, so that the model takes
    /// all samples.
    pub fn is_total(&self) -> (r: bool)
        requires
            self.wf(),
        ensures
            r == dsp_total(self.dsp.model()),
    {
        self.dsp.is_total()
    }

    /// Whether every activation of the size that a ratio selects, where that is
    /// another one, has a value everywhere.
    pub fn selects_total(&self, val: S::Wide) -> (r: bool)
        requires
            lawful::<S>(),
            self.wf(),
        ensures
            r == (selection_changes(self.dsp.model(), val) ==> dsp_total(
                selected(self.dsp.model(), val),
            )),
    {
        self.dsp.selects_total(val)
    }

    /// Whether the size that a ratio selects can run with the current block
    /// size.
    pub fn can_select(&self, val: S::Wide) -> (r: bool)
        requires
            lawful::<S>(),
            self.wf(),
        ensures
            r == selectable(self.dsp.model(), val, self.max_buffer_size as nat),
    {
        self.max_buffer_size == 0 || self.dsp.can_select(val, self.max_buffer_size)
    }

    /// Select the size of the model by a ratio; one selects the full size.
    /// Says whether the model has sizes at all. A model that changes is reset,
    /// unless it has not been reset before.
    pub fn set_slimmable_size(&mut self, val: S::Wide) -> (r: bool)
        requires
            lawful::<S>(),
            old(self).wf(),
            selectable(old(self).dsp.model(), val, old(self).max_buffer_size as nat),
            old(self).max_buffer_size > 0 && selection_changes(old(self).dsp.model(), val)
                ==> settles(
                selected(old(self).dsp.model(), val),
                old(self).max_buffer_size as nat,
            ),
        ensures
            final(self).wf(),
            r == (old(self).dsp.model() is Container || old(self).dsp.model() is Slim),
            final(self).max_buffer_size == old(self).max_buffer_size,
            final(self).file() == (ModelFile {
                dsp: selected(old(self).dsp.model(), val),
                ..old(self).file()
            }),
            !selection_changes(old(self).dsp.model(), val) ==> *final(self) == *old(self),
            selection_changes(old(self).dsp.model(), val) && old(self).max_buffer_size > 0
                ==> final(self).dsp.state() == warm(
                selected(old(self).dsp.model(), val),
                old(self).max_buffer_size as nat,
            ),
    {
        let supported = self.dsp.is_slimmable();
        let changed = self.dsp.set_slimmable_size(val);
        if changed && self.max_buffer_size > 0 {
            let max = self.max_buffer_size;
            self.max_buffer_size = 0;
            let rate = match self.expected_sample_rate {
                Some(sr) => sr,
                None => S::Wide::from_bits(MINUS_ONE_BITS),
            };
            self.reset(rate, max);
        }
        supported
    }
}

/// Numbers as samples.
pub open spec fn widened<S: Scalar>(x: Seq<S>) -> Seq<S::Wide> {
    Seq::new(x.len(), |i: int| x[i].widen_spec())
}

/// Samples as numbers.
pub open spec fn narrowed<S: Scalar>(x: Seq<S::Wide>) -> Seq<S> {
    Seq::new(x.len(), |i: int| S::narrow_spec(x[i]))
}

/// Number of input channels: one for a container.
pub open spec fn model_inputs<S: Scalar>(m: DspModel<S>) -> nat {
    if m is Container {
        1
    } else {
        dsp_inputs(m)
    }
}

/// Number of output channels: one for a container.
pub open spec fn model_outputs<S: Scalar>(m: DspModel<S>) -> nat {
    if m is Container {
        1
    } else {
        dsp_outputs(m)
    }
}

/// The model that a ratio selects, where that is another one, can run on
/// blocks of up to `max` samples.
pub open spec fn selectable<S: Scalar>(m: DspModel<S>, val: S::Wide, max: nat) -> bool {
    max > 0 && selection_changes(m, val) ==> ready(selected(m, val), max)
}

/// Bring a model to rest with silence.
fn warm_up<S: Scalar>(dsp: &mut Dsp<S>, max: usize)
    requires
        lawful::<S>(),
        old(dsp).wf(),
        old(dsp).sized(max as nat),
        dsp_runs(old(dsp).model()),
        max > 0,
        old(dsp).state() == dsp_rest(old(dsp).model()),
        settles(old(dsp).model(), max as nat),
    ensures
        final(dsp).wf(),
        final(dsp).sized(max as nat),
        final(dsp).model() == old(dsp).model(),
        final(dsp).state() == after_silence(
            old(dsp).model(),
            old(dsp).state(),
            max as nat,
            blocks_for(dsp_reach(old(dsp).model()), max as int),
        ),
{
    let ghost m = dsp.model();
    let ghost st = dsp.state();
    let prewarm = dsp.prewarm_samples();
    let zero = S::Wide::from_bits(ZERO_BITS);
    let zeros = repeat(zero, max);
    let mut sink = repeat(zero, max);
    assert(zeros@ =~= quiet_block::<S::Wide>(max as nat));
    let mut left = prewarm;
    let ghost mut k: nat = 0;
    proof {
        lemma_blocks(prewarm as int, max as int);
    }
    while left > 0
        invariant
            lawful::<S>(),
            dsp.wf(),
            dsp.sized(max as nat),
            dsp.model() == m,
            dsp_runs(m),
            max > 0,
            st == dsp_rest(m),
            settles(m, max as nat),
            prewarm == dsp_reach(m),
            zeros@ == quiet_block::<S::Wide>(max as nat),
            sink@.len() == max,
            dsp.state() == after_silence(m, st, max as nat, k),
            k + blocks_for(left as int, max as int) == blocks_for(prewarm as int, max as int),
        decreases left,
    {
        proof {
            lemma_blocks(left as int, max as int);
        }
        dsp.process_block(zeros.as_slice(), sink.as_mut_slice(), Ghost(max as nat));
        proof {
            k = k + 1;
        }
        if left <= max {
            left = 0;
        } else {
            left = left - max;
        }
        proof {
            lemma_blocks(left as int, max as int);
        }
    }
    proof {
        lemma_blocks(0, max as int);
    }
}

/// One block less for a block of samples less.
proof fn lemma_blocks(left: int, max: int)
    requires
        left >= 0,
        max > 0,
    ensures
        left == 0 ==> blocks_for(left, max) == 0,
        0 < left <= max ==> blocks_for(left, max) == 1,
        left > max ==> blocks_for(left, max) == 1 + blocks_for(left - max, max),
{
    if left == 0 {
        assert((max - 1) / max == 0) by (nonlinear_arith)
            requires
                max > 0,
        ;
    } else if left <= max {
        assert((left + max - 1) / max == 1) by (nonlinear_arith)
            requires
                0 < left <= max,
        ;
    } else {
        assert((left + max - 1) / max == 1 + (left - 1) / max) by (nonlinear_arith)
            requires
                max > 0,
        ;
        assert((left - 1) / max >= 0) by (nonlinear_arith)
            requires
                max > 0,
                left >= 1,
        ;
    }
}

/// A model makes one sample of each sample.
pub proof fn lemma_run_len<S: Scalar>(m: DspModel<S>, st: DspState<S>, x: Seq<S::Wide>)
    ensures
        dsp_run(m, st, x).output.len() == x.len(),
{
    match leaf(m) {
        DspModel::Net(n) => lemma_net_len(n, st->Net_0, mono_block::<S>(n.inputs, x)),
        DspModel::Slim(_, _, n) => lemma_net_len(n, st->Net_0, mono_block::<S>(n.inputs, x)),
        _ => {},
    }
}

/// A model makes one sample of each sample, in any number of blocks.
pub proof fn lemma_chunks_len<S: Scalar>(
    m: DspModel<S>,
    st: DspState<S>,
    x: Seq<S::Wide>,
    max: nat,
)
    requires
        max > 0,
    ensures
        chunk_run(m, st, x, max).output.len() == x.len(),
    decreases x.len(),
{
    if x.len() > 0 {
        let n = if x.len() < max {
            x.len()
        } else {
            max
        };
        lemma_run_len(m, st, x.take(n as int));
        lemma_chunks_len(m, dsp_run(m, st, x.take(n as int)).state, x.skip(n as int), max);
    }
}

/// Run a model on samples, in blocks of up to `max` samples.
fn run_chunks<S: Scalar>(
    dsp: &mut Dsp<S>,
    input: &[S::Wide],
    output: &mut [S::Wide],
    max: usize,
)
    requires
        lawful::<S>(),
        old(dsp).wf(),
        old(dsp).sized(max as nat),
        dsp_runs(old(dsp).model()),
        stream_defined(old(dsp).model(), old(dsp).state(), input@, max as nat),
        max > 0,
        input@.len() == old(output)@.len(),
    ensures
        final(dsp).wf(),
        final(dsp).sized(max as nat),
        final(dsp).model() == old(dsp).model(),
        ({
            let run = chunk_run(old(dsp).model(), old(dsp).state(), input@, max as nat);
            &&& final(dsp).state() == run.state
            &&& final(output)@ == run.output
        }),
{
    let ghost m = dsp.model();
    let ghost run = chunk_run(m, dsp.state(), input@, max as nat);
    let mut pos: usize = 0;
    proof {
        assert(input@.skip(0) =~= input@);
        assert(run.output =~= output@.take(0) + run.output);
    }
    while pos < input.len()
        invariant
            lawful::<S>(),
            dsp.wf(),
            dsp.sized(max as nat),
            dsp.model() == m,
            dsp_runs(m),
            max > 0,
            pos <= input@.len(),
            input@.len() == output@.len(),
            stream_defined(m, dsp.state(), input@.skip(pos as int), max as nat),
            ({
                let rest = chunk_run(m, dsp.state(), input@.skip(pos as int), max as nat);
                &&& run.state == rest.state
                &&& run.output == output@.take(pos as int) + rest.output
            }),
        decreases input@.len() - pos,
    {
        let left = input.len() - pos;
        let n = if left < max {
            left
        } else {
            max
        };
        let ghost before = output@;
        let ghost st = dsp.state();
        let ghost x = input@.skip(pos as int);
        let chunk = vstd::slice::slice_subrange(input, pos, pos + n);
        assert(chunk@ =~= x.take(n as int));
        let (_, tail) = output.split_at_mut(pos);
        let (piece, _) = tail.split_at_mut(n);
        dsp.process_block(chunk, piece, Ghost(max as nat));
        proof {
            lemma_run_len(m, st, chunk@);
            let first = dsp_run(m, st, chunk@);
            assert(x.skip(n as int) =~= input@.skip(pos + n));
            assert(output@.take(pos + n) =~= before.take(pos as int) + first.output);
            let rest = chunk_run(m, first.state, x.skip(n as int), max as nat);
            assert(before.take(pos as int) + (first.output + rest.output) =~= output@.take(pos + n)
                + rest.output);
        }
        pos = pos + n;
    }
    proof {
        assert(input@.skip(pos as int).len() == 0);
        assert(run.output =~= output@);
    }
}

} // verus!
