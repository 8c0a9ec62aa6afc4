//! What a document says under a name is what the model has.

use crate::json::{key_place, NumberTree, Tree};
use crate::num::{Sample, Scalar};
use crate::pure::config::collected;
use crate::pure::dsp::DspModel;
use crate::pure::dsp_config::{dsp_of, subs_of};
use crate::pure::lstm::{lstm_of, lstm_sizes};
use crate::pure::model::{file_of, ZERO_BITS};
use crate::pure::net_config::{weight_reader, weights_of};
use vstd::prelude::*;
use vstd::string::*;

verus! {

// Objects ====================================================================

/// An object has one entry with this name, and it holds `v`.
pub open spec fn says(t: Tree, name: Seq<char>, v: Tree) -> bool {
    t matches Tree::Object(entries) && exists|i: int|
        0 <= i < entries.len() && #[trigger] entries[i] == (name, v) && only_at(entries, name, i)
}

/// No entry but number `i` has this name.
pub open spec fn only_at(entries: Seq<(Seq<char>, Tree)>, name: Seq<char>, i: int) -> bool {
    forall|j: int| 0 <= j < entries.len() && j != i ==> (#[trigger] entries[j]).0 != name
}

/// A document has no entry with this name.
pub open spec fn lacks(t: Tree, name: Seq<char>) -> bool {
    t matches Tree::Object(entries) ==> only_at(entries, name, -1)
}

/// A document has no entry with this name, or nothing under it.
pub open spec fn leaves_open(t: Tree, name: Seq<char>) -> bool {
    lacks(t, name) || says(t, name, Tree::Null)
}

/// A document has a number under this name that is the whole number `n`.
pub open spec fn says_whole(t: Tree, name: Seq<char>, n: usize) -> bool {
    exists|x: NumberTree| #[trigger] says(t, name, Tree::Number(x)) && x.whole == Some(n as u64)
}

/// A document has a number under this name with these bits.
pub open spec fn says_real(t: Tree, name: Seq<char>, bits: u64) -> bool {
    exists|x: NumberTree| #[trigger] says(t, name, Tree::Number(x)) && x.real == Some(bits)
}

/// A document has no number under this name.
pub open spec fn no_real(t: Tree, name: Seq<char>) -> bool {
    lacks(t, name) || exists|v: Tree|
        #[trigger] says(t, name, v) && (v matches Tree::Number(x) ==> x.real is None)
}

/// An entry of a list is the whole number `n`.
pub open spec fn is_whole(v: Tree, n: usize) -> bool {
    v matches Tree::Number(x) && x.whole == Some(n as u64)
}

/// Looking a name up finds its one entry.
proof fn lemma_place(entries: Seq<(Seq<char>, Tree)>, name: Seq<char>, i: int, at: int)
    requires
        0 <= at,
        only_at(entries, name, i),
        0 <= i < entries.len() ==> at <= i && entries[i].0 == name,
    ensures
        key_place(entries, name, at) == if 0 <= i < entries.len() {
            Some(i)
        } else {
            None
        },
    decreases entries.len() - at,
{
    if at < entries.len() && at != i {
        lemma_place(entries, name, i, at + 1);
    }
}

/// What a document says under a name is found.
pub proof fn names_are_found(t: Tree, name: Seq<char>, v: Tree)
    requires
        says(t, name, v),
    ensures
        t.get(name) == Some(v),
        t.field(name) == if v is Null {
            None
        } else {
            Some(v)
        },
{
    let entries = t->Object_0;
    let i = choose|i: int|
        0 <= i < entries.len() && #[trigger] entries[i] == (name, v) && only_at(entries, name, i);
    lemma_place(entries, name, i, 0);
}

/// What a document lacks is not found.
pub proof fn other_names_are_not_found(t: Tree, name: Seq<char>)
    requires
        lacks(t, name),
    ensures
        t.get(name) is None,
        t.field(name) is None,
{
    if let Tree::Object(entries) = t {
        lemma_place(entries, name, -1, 0);
    }
}

/// What a document leaves open is no field.
pub proof fn open_names_are_no_fields(t: Tree, name: Seq<char>)
    requires
        leaves_open(t, name),
    ensures
        t.field(name) is None,
{
    if lacks(t, name) {
        other_names_are_not_found(t, name);
    } else {
        names_are_found(t, name, Tree::Null);
    }
}

/// A whole number under a name is found.
pub proof fn wholes_are_found(t: Tree, name: Seq<char>, n: usize)
    requires
        says_whole(t, name, n),
    ensures
        t.get(name) is Some,
        t.field(name) == t.get(name),
        t.get(name)->0.as_u64() == Some(n as u64),
{
    let x = choose|x: NumberTree|
        #[trigger] says(t, name, Tree::Number(x)) && x.whole == Some(n as u64);
    names_are_found(t, name, Tree::Number(x));
}

/// A number under a name is found.
pub proof fn reals_are_found(t: Tree, name: Seq<char>, bits: u64)
    requires
        says_real(t, name, bits),
    ensures
        t.get(name) is Some,
        t.get(name)->0.as_real() == Some(bits),
{
    let x = choose|x: NumberTree| #[trigger] says(t, name, Tree::Number(x)) && x.real == Some(bits);
    names_are_found(t, name, Tree::Number(x));
}

/// Where there is no number under a name, none is found.
pub proof fn lemma_no_real(t: Tree, name: Seq<char>)
    requires
        no_real(t, name),
    ensures
        t.get(name) matches Some(v) ==> v.as_real() is None,
{
    if lacks(t, name) {
        other_names_are_not_found(t, name);
    } else {
        let v = choose|v: Tree|
            #[trigger] says(t, name, v) && (v matches Tree::Number(x) ==> x.real is None);
        names_are_found(t, name, v);
    }
}

/// A list is read entry by entry, in order.
pub proof fn lists_are_read_in_order<T>(
    items: Seq<Tree>,
    f: spec_fn(Tree, int) -> Result<T, Seq<char>>,
    i: int,
)
    requires
        collected(items, f) is Ok,
        0 <= i < items.len(),
    ensures
        collected(items, f)->Ok_0.len() == items.len(),
        f(items[i], i) == Ok::<T, Seq<char>>(collected(items, f)->Ok_0[i]),
    decreases items.len(),
{
    if items.len() > 1 && i < items.len() - 1 {
        lists_are_read_in_order(items.drop_last(), f, i);
    } else if items.len() > 1 {
        lists_are_read_in_order(items.drop_last(), f, 0);
    } else {
        empty_lists_are_read(items.drop_last(), f);
    }
}

/// An empty list has no entries to read.
pub proof fn empty_lists_are_read<T>(
    items: Seq<Tree>,
    f: spec_fn(Tree, int) -> Result<T, Seq<char>>,
)
    requires
        items.len() == 0,
    ensures
        collected(items, f) == Ok::<Seq<T>, Seq<char>>(Seq::empty()),
{
}

/// A list is read where each of its entries is.
pub proof fn readable_lists_are_read<T>(
    items: Seq<Tree>,
    f: spec_fn(Tree, int) -> Result<T, Seq<char>>,
)
    requires
        forall|i: int| 0 <= i < items.len() ==> (#[trigger] f(items[i], i)) is Ok,
    ensures
        collected(items, f) is Ok,
        collected(items, f)->Ok_0.len() == items.len(),
    decreases items.len(),
{
    if items.len() > 0 {
        let before = items.drop_last();
        assert forall|i: int| 0 <= i < before.len() implies (#[trigger] f(before[i], i)) is Ok by {
            assert(f(items[i], i) is Ok);
        }
        readable_lists_are_read(before, f);
        assert(f(items[items.len() - 1], items.len() - 1) is Ok);
    }
}

// Files ======================================================================

/// The sample rate of a loaded document is the number under its name, unless
/// that is below zero.
pub proof fn sample_rates_are_read<S: Scalar>(value: Tree, bits: u64)
    requires
        file_of::<S>(value) is Ok,
        says_real(value, "sample_rate"@, bits),
    ensures
        S::Wide::from_bits_spec(ZERO_BITS).le_spec(S::Wide::from_bits_spec(bits)) ==> file_of::<S>(
            value,
        )->Ok_0.rate == Some(S::Wide::from_bits_spec(bits)),
        !S::Wide::from_bits_spec(ZERO_BITS).le_spec(S::Wide::from_bits_spec(bits)) ==> file_of::<
            S,
        >(value)->Ok_0.rate is None,
        ZERO_BITS == 0,
{
    reals_are_found(value, "sample_rate"@, bits);
}

/// A document without a sample rate has none.
pub proof fn missing_sample_rates_are_unknown<S: Scalar>(value: Tree)
    requires
        file_of::<S>(value) is Ok,
        no_real(value, "sample_rate"@),
    ensures
        file_of::<S>(value)->Ok_0.rate is None,
{
    lemma_no_real(value, "sample_rate"@);
}

/// The levels of a loaded document are the numbers under their names in its
/// metadata: the loudness under `loudness`, the input level under
/// `input_level_dbu`, the output level under `output_level_dbu`.
pub proof fn levels_are_read<S: Scalar>(value: Tree, metadata: Tree, bits: u64)
    requires
        file_of::<S>(value) is Ok,
        says(value, "metadata"@, metadata),
    ensures
        says_real(metadata, "loudness"@, bits) ==> file_of::<S>(value)->Ok_0.loudness == Some(
            S::Wide::from_bits_spec(bits),
        ),
        says_real(metadata, "input_level_dbu"@, bits) ==> file_of::<S>(value)->Ok_0.input_level
            == Some(S::Wide::from_bits_spec(bits)),
        says_real(metadata, "output_level_dbu"@, bits) ==> file_of::<S>(value)->Ok_0.output_level
            == Some(S::Wide::from_bits_spec(bits)),
{
    names_are_found(value, "metadata"@, metadata);
    if says_real(metadata, "loudness"@, bits) {
        reals_are_found(metadata, "loudness"@, bits);
    }
    if says_real(metadata, "input_level_dbu"@, bits) {
        reals_are_found(metadata, "input_level_dbu"@, bits);
    }
    if says_real(metadata, "output_level_dbu"@, bits) {
        reals_are_found(metadata, "output_level_dbu"@, bits);
    }
}

/// A level that the metadata does not give as a number is unknown.
pub proof fn missing_levels_are_unknown<S: Scalar>(value: Tree, metadata: Tree)
    requires
        file_of::<S>(value) is Ok,
        says(value, "metadata"@, metadata),
    ensures
        no_real(metadata, "loudness"@) ==> file_of::<S>(value)->Ok_0.loudness is None,
        no_real(metadata, "input_level_dbu"@) ==> file_of::<S>(value)->Ok_0.input_level is None,
        no_real(metadata, "output_level_dbu"@) ==> file_of::<S>(value)->Ok_0.output_level is None,
{
    names_are_found(value, "metadata"@, metadata);
    if no_real(metadata, "loudness"@) {
        lemma_no_real(metadata, "loudness"@);
    }
    if no_real(metadata, "input_level_dbu"@) {
        lemma_no_real(metadata, "input_level_dbu"@);
    }
    if no_real(metadata, "output_level_dbu"@) {
        lemma_no_real(metadata, "output_level_dbu"@);
    }
}

/// A document without metadata has no levels.
pub proof fn levels_need_metadata<S: Scalar>(value: Tree)
    requires
        file_of::<S>(value) is Ok,
        lacks(value, "metadata"@),
    ensures
        file_of::<S>(value)->Ok_0.loudness is None,
        file_of::<S>(value)->Ok_0.input_level is None,
        file_of::<S>(value)->Ok_0.output_level is None,
{
    other_names_are_not_found(value, "metadata"@);
}

/// The weights of a model are the numbers of its list, in order.
pub proof fn weights_are_read_in_order<S: Scalar>(value: Tree, items: Seq<Tree>, i: int, bits: u64)
    requires
        says(value, "weights"@, Tree::Array(items)),
        weights_of::<S>(value) is Ok,
        0 <= i < items.len(),
        items[i] matches Tree::Number(x) && x.real == Some(bits),
    ensures
        weights_of::<S>(value)->Ok_0.len() == items.len(),
        weights_of::<S>(value)->Ok_0[i] == S::narrow_spec(S::Wide::from_bits_spec(bits)),
{
    names_are_found(value, "weights"@, Tree::Array(items));
    lists_are_read_in_order(items, weight_reader::<S>(), i);
}

/// The architecture of a document decides which kind of model it is.
pub proof fn architectures_are_obeyed<S: Scalar>(value: Tree, name: Seq<char>)
    requires
        says(value, "architecture"@, Tree::Text(name)),
        dsp_of::<S>(value) is Ok,
    ensures
        name == "WaveNet"@ || name == "LSTM"@ || name == "SlimmableContainer"@,
        name == "LSTM"@ ==> dsp_of::<S>(value)->Ok_0 is Lstm,
        name == "WaveNet"@ ==> dsp_of::<S>(value)->Ok_0 is Net || dsp_of::<S>(value)->Ok_0 is Slim,
        name == "SlimmableContainer"@ ==> dsp_of::<S>(value)->Ok_0 is Container,
{
    names_are_found(value, "architecture"@, Tree::Text(name));
    lemma_architectures_differ();
}

/// The names of the architectures differ.
proof fn lemma_architectures_differ()
    ensures
        "WaveNet"@ != "LSTM"@,
        "WaveNet"@ != "SlimmableContainer"@,
        "LSTM"@ != "SlimmableContainer"@,
{
    reveal_strlit("WaveNet");
    reveal_strlit("LSTM");
    reveal_strlit("SlimmableContainer");
    assert("WaveNet"@.len() == 7);
    assert("LSTM"@.len() == 4);
    assert("SlimmableContainer"@.len() == 18);
}

// Containers =================================================================

/// Each model of a container is the document under `model` of its entry, and its
/// bound is the number under `max_value`.
pub proof fn submodels_are_read_in_order<S: Scalar>(
    items: Seq<Tree>,
    k: nat,
    i: int,
    bits: u64,
    model: Tree,
)
    requires
        subs_of::<S>(items, k) is Ok,
        0 <= i < k <= items.len(),
        says_real(items[i], "max_value"@, bits),
        says(items[i], "model"@, model),
    ensures
        subs_of::<S>(items, k)->Ok_0.len() == k,
        subs_of::<S>(items, k)->Ok_0[i].0 == S::Wide::from_bits_spec(bits),
        dsp_of::<S>(model) == Ok::<DspModel<S>, Seq<char>>(subs_of::<S>(items, k)->Ok_0[i].1),
    decreases k,
{
    lemma_subs_len::<S>(items, k);
    if i < k - 1 {
        submodels_are_read_in_order::<S>(items, (k - 1) as nat, i, bits, model);
    } else {
        reals_are_found(items[i], "max_value"@, bits);
        names_are_found(items[i], "model"@, model);
        lemma_subs_len::<S>(items, (k - 1) as nat);
    }
}

/// A container has as many models as entries.
proof fn lemma_subs_len<S: Scalar>(items: Seq<Tree>, k: nat)
    requires
        subs_of::<S>(items, k) is Ok,
        k <= items.len(),
    ensures
        subs_of::<S>(items, k)->Ok_0.len() == k,
    decreases k,
{
    if k > 0 {
        lemma_subs_len::<S>(items, (k - 1) as nat);
    }
}

/// A loaded container holds the models of its list, in order.
pub proof fn containers_hold_their_list<S: Scalar>(value: Tree, config: Tree, items: Seq<Tree>)
    requires
        says(value, "architecture"@, Tree::Text("SlimmableContainer"@)),
        says(value, "config"@, config),
        says(config, "submodels"@, Tree::Array(items)),
        dsp_of::<S>(value) is Ok,
    ensures
        dsp_of::<S>(value)->Ok_0 matches DspModel::Container(subs, active) && subs.len()
            == items.len() && subs_of::<S>(items, items.len()) == Ok::<_, Seq<char>>(subs)
            && active == items.len() - 1,
{
    names_are_found(value, "architecture"@, Tree::Text("SlimmableContainer"@));
    names_are_found(value, "config"@, config);
    names_are_found(config, "submodels"@, Tree::Array(items));
    lemma_architectures_differ();
    lemma_subs_len::<S>(items, items.len());
}

// Recurrent networks =========================================================

/// The sizes of a recurrent network are the whole numbers under their names.
pub proof fn recurrent_sizes_are_read(config: Tree, n: usize)
    requires
        lstm_sizes(config) is Ok,
    ensures
        says_whole(config, "num_layers"@, n) ==> lstm_sizes(config)->Ok_0.layers == n,
        says_whole(config, "input_size"@, n) ==> lstm_sizes(config)->Ok_0.input == n,
        says_whole(config, "hidden_size"@, n) ==> lstm_sizes(config)->Ok_0.hidden == n,
        says_whole(config, "in_channels"@, n) ==> lstm_sizes(config)->Ok_0.inputs == n,
        lacks(config, "in_channels"@) ==> lstm_sizes(config)->Ok_0.inputs == 1,
        says_whole(config, "out_channels"@, n) ==> lstm_sizes(config)->Ok_0.outputs == n,
        lacks(config, "out_channels"@) ==> lstm_sizes(config)->Ok_0.outputs == 1,
{
    if says_whole(config, "num_layers"@, n) {
        wholes_are_found(config, "num_layers"@, n);
    }
    if says_whole(config, "input_size"@, n) {
        wholes_are_found(config, "input_size"@, n);
    }
    if says_whole(config, "hidden_size"@, n) {
        wholes_are_found(config, "hidden_size"@, n);
    }
    if says_whole(config, "in_channels"@, n) {
        wholes_are_found(config, "in_channels"@, n);
    }
    if lacks(config, "in_channels"@) {
        other_names_are_not_found(config, "in_channels"@);
    }
    if says_whole(config, "out_channels"@, n) {
        wholes_are_found(config, "out_channels"@, n);
    }
    if lacks(config, "out_channels"@) {
        other_names_are_not_found(config, "out_channels"@);
    }
}

/// A loaded recurrent network is made of its configuration and its weights, and
/// remembers the sample rate of the file, or minus one where there is none.
pub proof fn recurrent_networks_are_read<S: Scalar>(value: Tree, config: Tree, bits: u64)
    requires
        says(value, "architecture"@, Tree::Text("LSTM"@)),
        says(value, "config"@, config),
        dsp_of::<S>(value) is Ok,
        says_real(value, "sample_rate"@, bits) || (no_real(value, "sample_rate"@) && bits
            == 0xBFF0_0000_0000_0000),
    ensures
        weights_of::<S>(value) is Ok,
        dsp_of::<S>(value)->Ok_0 matches DspModel::Lstm(m) && m.rate == S::Wide::from_bits_spec(
            bits,
        ) && lstm_of(config, weights_of::<S>(value)->Ok_0, m.rate) == Ok::<_, Seq<char>>(m),
{
    names_are_found(value, "architecture"@, Tree::Text("LSTM"@));
    names_are_found(value, "config"@, config);
    if says_real(value, "sample_rate"@, bits) {
        reals_are_found(value, "sample_rate"@, bits);
    } else {
        lemma_no_real(value, "sample_rate"@);
    }
    lemma_architectures_differ();
}

} // verus!
