//! What the calls of the library answer, from the documents and the samples that
//! they are given.

use crate::{ModelMetadata, NamModel};
use crate::json::{json_of, Json, Tree};
use crate::laws::documents::{
    is_whole, lacks, levels_are_read, levels_need_metadata, missing_levels_are_unknown, no_real,
    sample_rates_are_read, says, says_real,
};
use crate::laws::selection::unchanged_selection_keeps_the_model;
use crate::laws::shares::ratios_count_steps;
use crate::laws::stack_documents::{
    activations_are_read_in_order, dilations_are_read_in_order, kernel_sizes_are_read_in_order,
};
use crate::num::{lawful, Sample, Scalar};
use crate::pure::activations::{act_of, activated, fast_tanh, sigmoid, Act, Activation};
use crate::pure::array_config::{parse_layer_array_spec, LayerArraySpec};
use crate::pure::dsp::{selected, selection_changes, DspModel};
use crate::pure::model::{
    chunk_run, lemma_chunks_len, ready, selectable, settles, stream_defined, warm, widened,
    PureNamModel,
};
use crate::pure::net::{net_fits, net_wired};
use crate::pure::slim::SlimmableWaveNet;
use vstd::prelude::*;
use vstd::string::*;
use vstd::utf8::{encode_utf8, encode_utf8_decode_utf8, encode_utf8_valid_utf8};

verus! {

// Metadata ===================================================================

/// A model that was read from a document answers with the levels that the
/// metadata of the document gives under their names.
pub proof fn levels_are_answered<S: Scalar>(
    value: Json,
    m: PureNamModel<S>,
    metadata: Tree,
    bits: u64,
    loudness: Option<S::Wide>,
    input: Option<S::Wide>,
    output: Option<S::Wide>,
)
    requires
        call_ensures(PureNamModel::<S>::from_value, (&value,), Ok(m)),
        call_ensures(PureNamModel::<S>::loudness, (&m,), loudness),
        call_ensures(PureNamModel::<S>::input_level, (&m,), input),
        call_ensures(PureNamModel::<S>::output_level, (&m,), output),
        says(value@, "metadata"@, metadata),
    ensures
        says_real(metadata, "loudness"@, bits) ==> loudness == Some(S::Wide::from_bits_spec(bits)),
        no_real(metadata, "loudness"@) ==> loudness is None,
        says_real(metadata, "input_level_dbu"@, bits) ==> input == Some(
            S::Wide::from_bits_spec(bits),
        ),
        no_real(metadata, "input_level_dbu"@) ==> input is None,
        says_real(metadata, "output_level_dbu"@, bits) ==> output == Some(
            S::Wide::from_bits_spec(bits),
        ),
        no_real(metadata, "output_level_dbu"@) ==> output is None,
{
    levels_are_read::<S>(value@, metadata, bits);
    missing_levels_are_unknown::<S>(value@, metadata);
}

/// A model that was loaded from a text answers with everything that the document
/// in the text says of it; the same is answered one by one and all at once.
pub proof fn metadata_are_answered<S: Scalar>(
    json: &str,
    m: NamModel<S>,
    doc: Tree,
    metadata: Tree,
    bits: u64,
    all: ModelMetadata<S::Wide>,
    rate: Option<S::Wide>,
    loudness: Option<S::Wide>,
    input: Option<S::Wide>,
    output: Option<S::Wide>,
)
    requires
        call_ensures(NamModel::<S>::from_json, (json,), Ok(m)),
        json_of(json@) == Ok::<Tree, Seq<char>>(doc),
        call_ensures(NamModel::<S>::metadata, (&m,), all),
        call_ensures(NamModel::<S>::expected_sample_rate, (&m,), rate),
        call_ensures(NamModel::<S>::loudness, (&m,), loudness),
        call_ensures(NamModel::<S>::input_level, (&m,), input),
        call_ensures(NamModel::<S>::output_level, (&m,), output),
    ensures
        all.expected_sample_rate == rate,
        all.loudness == loudness,
        all.input_level == input,
        all.output_level == output,
        says(doc, "metadata"@, metadata) && says_real(metadata, "loudness"@, bits) ==> loudness
            == Some(S::Wide::from_bits_spec(bits)),
        says(doc, "metadata"@, metadata) && says_real(metadata, "input_level_dbu"@, bits)
            ==> input == Some(S::Wide::from_bits_spec(bits)),
        says(doc, "metadata"@, metadata) && says_real(metadata, "output_level_dbu"@, bits)
            ==> output == Some(S::Wide::from_bits_spec(bits)),
        lacks(doc, "metadata"@) ==> loudness is None && input is None && output is None,
        says_real(doc, "sample_rate"@, bits) && S::Wide::from_bits_spec(0).le_spec(
            S::Wide::from_bits_spec(bits),
        ) ==> rate == Some(S::Wide::from_bits_spec(bits)),
        says_real(doc, "sample_rate"@, bits) && !S::Wide::from_bits_spec(0).le_spec(
            S::Wide::from_bits_spec(bits),
        ) ==> rate is None,
{
    if says(doc, "metadata"@, metadata) {
        levels_are_read::<S>(doc, metadata, bits);
    }
    if lacks(doc, "metadata"@) {
        levels_need_metadata::<S>(doc);
    }
    if says_real(doc, "sample_rate"@, bits) {
        sample_rates_are_read::<S>(doc, bits);
    }
}

/// The numbers of channels are answered one by one and all at once; a container
/// has one of each, and every other model what it reads and writes.
pub proof fn channels_are_answered<S: Scalar>(
    m: NamModel<S>,
    all: ModelMetadata<S::Wide>,
    inputs: usize,
    outputs: usize,
)
    requires
        call_ensures(NamModel::<S>::metadata, (&m,), all),
        call_ensures(NamModel::<S>::input_channels, (&m,), inputs),
        call_ensures(NamModel::<S>::output_channels, (&m,), outputs),
    ensures
        all.input_channels == inputs,
        all.output_channels == outputs,
        match m.inner.dsp.model() {
            DspModel::Container(_, _) => inputs == 1 && outputs == 1,
            DspModel::Net(n) => inputs == n.inputs && outputs == n.outputs,
            DspModel::Slim(_, _, n) => inputs == n.inputs && outputs == n.outputs,
            DspModel::Lstm(l) => inputs == l.inputs && outputs == l.outputs,
        },
{
}

/// Bytes are loaded as the text that they encode: both loads succeed with models
/// that say the same, or fail with the same words.
pub proof fn bytes_are_loaded_as_text<S: Scalar>(
    bytes: &[u8],
    json: &str,
    a: Result<NamModel<S>, String>,
    b: Result<NamModel<S>, String>,
)
    requires
        bytes@ == encode_utf8(json@),
        call_ensures(NamModel::<S>::from_bytes, (bytes,), a),
        call_ensures(NamModel::<S>::from_json, (json,), b),
    ensures
        a is Ok <==> b is Ok,
        a is Ok ==> a->Ok_0.file() == b->Ok_0.file(),
        a is Err ==> a->Err_0@ == b->Err_0@,
{
    encode_utf8_valid_utf8(json@);
    encode_utf8_decode_utf8(json@);
}

/// A text that is no document is refused with the words of the parser, and every
/// other refusal carries the words of the reader.
pub proof fn refusals_are_answered<S: Scalar>(
    json: &str,
    a: Result<NamModel<S>, String>,
    b: Result<PureNamModel<S>, String>,
)
    requires
        call_ensures(NamModel::<S>::from_json, (json,), a),
        call_ensures(PureNamModel::<S>::from_json, (json,), b),
    ensures
        a is Ok <==> b is Ok,
        a is Err ==> a->Err_0@ == "Failed to load NAM model: "@ + b->Err_0@,
        json_of(json@) matches Err(e) ==> b is Err && b->Err_0@ == "invalid JSON: "@ + e,
{
}

// Configurations =============================================================

/// The lists of a stack that was read have what the document says of each layer.
pub proof fn stack_lists_are_answered<S: Scalar>(
    lc: Json,
    idx: usize,
    a: LayerArraySpec<S>,
    items: Seq<Tree>,
    i: int,
    n: usize,
)
    requires
        call_ensures(parse_layer_array_spec::<S>, (&lc, idx), Ok(a)),
        0 <= i < items.len(),
    ensures
        says(lc@, "kernel_sizes"@, Tree::Array(items)) && is_whole(items[i], n)
            ==> a.kernel_sizes@.len() == items.len() && a.kernel_sizes@[i] == n,
        says(lc@, "dilations"@, Tree::Array(items)) && is_whole(items[i], n)
            ==> a.dilations@.len() == items.len() && a.dilations@[i] == n,
        says(lc@, "activation"@, Tree::Array(items)) ==> a.activations@.len() == items.len()
            && act_of::<S>(items[i]) == Ok::<Act<S>, Seq<char>>(a.activations@[i].model()),
{
    if says(lc@, "kernel_sizes"@, Tree::Array(items)) && is_whole(items[i], n) {
        kernel_sizes_are_read_in_order::<S>(lc@, idx as int, items, i, n);
    }
    if says(lc@, "dilations"@, Tree::Array(items)) && is_whole(items[i], n) {
        dilations_are_read_in_order::<S>(lc@, idx as int, items, i, n);
    }
    if says(lc@, "activation"@, Tree::Array(items)) {
        activations_are_read_in_order::<S>(lc@, idx as int, items, i);
    }
}

// Activations ================================================================

/// An activation answers with the value of its own function.
pub proof fn values_are_answered<S: Scalar>(a: Activation<S>, x: S, p: usize, r: S)
    requires
        call_ensures(Activation::<S>::scalar, (&a, x, p), r),
    ensures
        a is Tanh ==> r == x.tanh_spec(),
        a is ReLU && S::zero_spec().lt_spec(x) ==> r == x,
        a is ReLU && !S::zero_spec().lt_spec(x) ==> r == S::zero_spec(),
        a matches Activation::LeakyReLU(slope) ==> !S::zero_spec().lt_spec(x) ==> r
            == slope.mul_spec(x),
        a matches Activation::PReLU(slopes) ==> !S::zero_spec().lt_spec(x) && slopes@.len() > 0
            ==> r == slopes@[p as int % slopes@.len() as int].mul_spec(x),
        a is Hardtanh ==> r == activated(Act::Hardtanh, x, 0),
        a is Fasttanh ==> r == activated(Act::Fasttanh, x, 0),
        a is Sigmoid ==> r == activated(Act::Sigmoid, x, 0),
        a is SiLU ==> r == x.mul_spec(activated(Act::Sigmoid, x, 0)),
        a is Hardswish ==> r == activated(Act::Hardswish, x, 0),
        a matches Activation::LeakyHardtanh { min_val, max_val, min_slope, max_slope } ==> r
            == activated(Act::LeakyHardtanh { min_val, max_val, min_slope, max_slope }, x, 0),
        a is Softsign ==> r == x.div_spec(S::literal_spec(1, 0).add_spec(x.abs_spec())),
{
}

/// The two functions that stand alone answer as the activations of their names.
pub proof fn helpers_are_answered<S: Scalar>(x: S, a: S, b: S)
    requires
        call_ensures(sigmoid::<S>, (x,), a),
        call_ensures(fast_tanh::<S>, (x,), b),
    ensures
        a == activated(Act::Sigmoid, x, 0),
        b == activated(Act::Fasttanh, x, 0),
{
}

// Sizes ======================================================================

/// The channels that a ratio selects for a stack: the size whose number is the
/// number of whole steps, the first below zero, the last beyond the end, and all
/// channels where there are no sizes.
pub proof fn channels_of_a_ratio_are_answered<S: Scalar>(
    s: SlimmableWaveNet<S>,
    val: S::Wide,
    r: Vec<usize>,
    i: int,
)
    requires
        call_ensures(SlimmableWaveNet::<S>::channels_for_size, (&s, val), r),
        0 <= i < s.specs@.len(),
        s.allowed@.len() == s.specs@.len(),
        s.allowed@[i]@.len() <= usize::MAX,
    ensures
        ({
            let list = s.allowed@[i]@;
            let k = val.step_of_spec(list.len() as usize) as int;
            &&& r@.len() == s.specs@.len()
            &&& list.len() == 0 ==> r@[i] == s.specs@[i].channels
            &&& list.len() > 0 && k < 0 ==> r@[i] == list[0]
            &&& 0 <= k < list.len() ==> r@[i] == list[k]
            &&& list.len() > 0 && k >= list.len() ==> r@[i] == list[list.len() - 1]
        }),
{
    let m = s.model();
    assert(m.allowed[i] == s.allowed@[i]@);
    assert(m.arrays[i] == s.specs@[i].model());
    ratios_count_steps(m, val, i);
}

// Sessions ===================================================================

/// Reset a model and run it on samples: the output is what the model makes of them
/// from rest, in blocks of the length it was reset for.
pub fn run_from_rest<S: Scalar>(
    m: &mut NamModel<S>,
    rate: S::Wide,
    max: usize,
    input: &[S::Wide],
    output: &mut [S::Wide],
)
    requires
        lawful::<S>(),
        old(m).wf(),
        max > 0,
        ready(old(m).file().dsp, max as nat),
        settles(old(m).file().dsp, max as nat),
        stream_defined(
            old(m).file().dsp,
            warm(old(m).file().dsp, max as nat),
            input@,
            max as nat,
        ),
        input@.len() == old(output)@.len(),
    ensures
        final(m).wf(),
        final(m).file() == old(m).file(),
        final(output)@ == chunk_run(
            old(m).file().dsp,
            warm(old(m).file().dsp, max as nat),
            input@,
            max as nat,
        ).output,
        final(m).inner.max_buffer_size == max,
        final(m).inner.dsp.state() == chunk_run(
            old(m).file().dsp,
            warm(old(m).file().dsp, max as nat),
            input@,
            max as nat,
        ).state,
{
    m.reset(rate, max);
    m.process(input, output);
}

/// Select a size and run the model on samples: a model that changes starts from
/// rest, and one that does not goes on from where it is.
pub fn run_at_size<S: Scalar>(
    m: &mut NamModel<S>,
    val: S::Wide,
    input: &[S::Wide],
    output: &mut [S::Wide],
) -> (r: bool)
    requires
        lawful::<S>(),
        old(m).wf(),
        old(m).inner.max_buffer_size > 0,
        selectable(old(m).file().dsp, val, old(m).inner.max_buffer_size as nat),
        selection_changes(old(m).file().dsp, val) ==> settles(
            selected(old(m).file().dsp, val),
            old(m).inner.max_buffer_size as nat,
        ),
        ({
            let max = old(m).inner.max_buffer_size as nat;
            let now = selected(old(m).file().dsp, val);
            stream_defined(
                now,
                if selection_changes(old(m).file().dsp, val) {
                    warm(now, max)
                } else {
                    old(m).inner.dsp.state()
                },
                input@,
                max,
            )
        }),
        input@.len() == old(output)@.len(),
    ensures
        final(m).wf(),
        r == (old(m).file().dsp is Container || old(m).file().dsp is Slim),
        final(m).file().dsp == selected(old(m).file().dsp, val),
        final(m).file().rate == old(m).file().rate,
        final(m).file().loudness == old(m).file().loudness,
        final(m).file().input_level == old(m).file().input_level,
        final(m).file().output_level == old(m).file().output_level,
        final(m).inner.max_buffer_size == old(m).inner.max_buffer_size,
        ({
            let max = old(m).inner.max_buffer_size as nat;
            let now = selected(old(m).file().dsp, val);
            final(output)@ == chunk_run(
                now,
                if selection_changes(old(m).file().dsp, val) {
                    warm(now, max)
                } else {
                    old(m).inner.dsp.state()
                },
                input@,
                max,
            ).output
        }),
{
    let r = m.set_slimmable_size(val);
    proof {
        if !selection_changes(old(m).file().dsp, val) {
            unchanged_selection_keeps_the_model(
                old(m).file().dsp,
                val,
            );
        }
    }
    m.process(input, output);
    r
}

/// Run a model on numbers of its own kind from rest: what comes out are the
/// samples that it makes of the same numbers, narrowed.
pub fn run_own_numbers_from_rest<S: Scalar>(
    m: &mut PureNamModel<S>,
    rate: S::Wide,
    max: usize,
    input: &[S],
    output: &mut [S],
)
    requires
        lawful::<S>(),
        old(m).wf(),
        max > 0,
        ready(old(m).dsp.model(), max as nat),
        settles(old(m).dsp.model(), max as nat),
        stream_defined(
            old(m).dsp.model(),
            warm(old(m).dsp.model(), max as nat),
            widened(input@),
            max as nat,
        ),
        input@.len() == old(output)@.len(),
    ensures
        final(m).wf(),
        final(m).file() == old(m).file(),
        final(output)@.len() == input@.len(),
        forall|i: int|
            0 <= i < input@.len() ==> #[trigger] final(output)@[i] == S::narrow_spec(
                chunk_run(
                    old(m).dsp.model(),
                    warm(old(m).dsp.model(), max as nat),
                    widened(input@),
                    max as nat,
                ).output[i],
            ),
{
    m.reset(rate, max);
    m.process_f32(input, output);
    proof {
        lemma_chunks_len(
            m.dsp.model(),
            warm(m.dsp.model(), max as nat),
            widened(input@),
            max as nat,
        );
    }
}

/// Run a model that has never been reset: it is reset for blocks of 4096 samples
/// first.
pub fn run_unreset<S: Scalar>(m: &mut NamModel<S>, input: &[S::Wide], output: &mut [S::Wide])
    requires
        lawful::<S>(),
        old(m).wf(),
        old(m).inner.max_buffer_size == 0,
        ready(old(m).file().dsp, 4096),
        settles(old(m).file().dsp, 4096),
        stream_defined(old(m).file().dsp, warm(old(m).file().dsp, 4096), input@, 4096),
        input@.len() == old(output)@.len(),
    ensures
        final(m).wf(),
        final(m).file() == old(m).file(),
        final(m).inner.max_buffer_size == 4096,
        final(output)@ == chunk_run(
            old(m).file().dsp,
            warm(old(m).file().dsp, 4096),
            input@,
            4096,
        ).output,
{
    m.process(input, output);
}

/// A model can be reset exactly where it has a channel to write, its channels match
/// and its buffers can be addressed; a container where its selected model can.
pub proof fn resets_are_answered<S: Scalar>(m: NamModel<S>, max: usize, r: bool)
    requires
        call_ensures(NamModel::<S>::can_reset, (&m, max), r),
    ensures
        ({
            let room = if max == 0 {
                1
            } else {
                max as nat
            };
            match m.inner.dsp.model() {
                DspModel::Lstm(l) => r <==> l.outputs >= 1,
                DspModel::Net(n) => r <==> n.inputs >= 1 && n.outputs >= 1 && net_wired(n)
                    && net_fits(n, room),
                DspModel::Slim(_, _, n) => r <==> n.inputs >= 1 && n.outputs >= 1 && net_wired(n)
                    && net_fits(n, room),
                DspModel::Container(subs, k) => k < subs.len() ==> (r <==> ready(
                    subs[k as int].1,
                    room,
                )),
            }
        }),
{
}

} // verus!
