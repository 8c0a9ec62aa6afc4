//! Documents of recurrent networks, containers, heads, conditions and sizes that
//! are accepted.

use crate::json::Tree;
use crate::laws::documents::{
    is_whole, leaves_open, lists_are_read_in_order, names_are_found, open_names_are_no_fields,
    reals_are_found, says, says_real, says_whole, wholes_are_found,
};
use crate::laws::network_documents::{all_whole, lemma_all_whole, some_whole, uses_method};
use crate::num::{Sample, Scalar};
use crate::pure::activations::act_of;
use crate::pure::config::{collected, whole_reader};
use crate::pure::dsp_config::{dsp_of, subs_of};
use crate::pure::lstm::{lstm_sized, lstm_sizes};
use crate::pure::net_build::net_of;
use crate::pure::net_config::{condition_of, head_of, parsed, parts_of, weights_of};
use crate::pure::slim_config::{ascending, sizes_allowed};
use vstd::prelude::*;
use vstd::string::*;

verus! {

/// The sizes of a recurrent network can be read where the three that it needs are
/// whole numbers; its channels are one where they are not given.
pub proof fn recurrent_sizes_are_accepted(config: Tree, layers: usize, input: usize, hidden: usize)
    requires
        says_whole(config, "num_layers"@, layers),
        says_whole(config, "input_size"@, input),
        says_whole(config, "hidden_size"@, hidden),
    ensures
        lstm_sizes(config) is Ok,
{
    wholes_are_found(config, "num_layers"@, layers);
    wholes_are_found(config, "input_size"@, input);
    wholes_are_found(config, "hidden_size"@, hidden);
}

/// A document of a recurrent network is loaded where its sizes can be read and the
/// network can be made of its weights.
pub proof fn recurrent_documents_are_accepted<S: Scalar>(
    value: Tree,
    config: Tree,
    layers: usize,
    input: usize,
    hidden: usize,
)
    requires
        says(value, "architecture"@, Tree::Text("LSTM"@)),
        says(value, "config"@, config),
        says_whole(config, "num_layers"@, layers),
        says_whole(config, "input_size"@, input),
        says_whole(config, "hidden_size"@, hidden),
        weights_of::<S>(value) is Ok,
        forall|rate: S::Wide|
            (#[trigger] lstm_sized(
                lstm_sizes(config)->Ok_0,
                weights_of::<S>(value)->Ok_0,
                rate,
            )) is Ok,
    ensures
        dsp_of::<S>(value) is Ok,
        dsp_of::<S>(value)->Ok_0 is Lstm,
{
    names_are_found(value, "architecture"@, Tree::Text("LSTM"@));
    names_are_found(value, "config"@, config);
    recurrent_sizes_are_accepted(config, layers, input, hidden);
    reveal_strlit("LSTM");
    reveal_strlit("WaveNet");
    assert("LSTM"@.len() == 4);
    assert("WaveNet"@.len() == 7);
}

/// The entries of a container can be read: each has a bound and a model that is
/// loaded, and no bound is as small as the one before.
pub open spec fn entries_are_complete<S: Scalar>(items: Seq<Tree>) -> bool {
    &&& forall|i: int|
        0 <= i < items.len() ==> exists|bits: u64|
            says_real(#[trigger] items[i], "max_value"@, bits)
    &&& forall|i: int|
        0 <= i < items.len() ==> exists|model: Tree|
            says(#[trigger] items[i], "model"@, model) && dsp_of::<S>(model) is Ok
    &&& forall|i: int, low: u64, high: u64|
        0 < i < items.len() && #[trigger] says_real(items[i - 1], "max_value"@, low)
            && #[trigger] says_real(items[i], "max_value"@, high) ==> !S::Wide::from_bits_spec(
            high,
        ).le_spec(S::Wide::from_bits_spec(low))
    &&& forall|bits: u64|
        0 < items.len() && #[trigger] says_real(items[0], "max_value"@, bits)
            ==> !S::Wide::from_bits_spec(bits).le_spec(
            S::Wide::from_bits_spec(0xFFF0_0000_0000_0000),
        )
}

/// The first models of a container can be read.
proof fn lemma_entries<S: Scalar>(items: Seq<Tree>, k: nat)
    requires
        entries_are_complete::<S>(items),
        k <= items.len(),
    ensures
        subs_of::<S>(items, k) is Ok,
        subs_of::<S>(items, k)->Ok_0.len() == k,
        k > 0 ==> exists|bits: u64|
            #[trigger] says_real(items[k - 1], "max_value"@, bits) && subs_of::<S>(
                items,
                k,
            )->Ok_0.last().0 == S::Wide::from_bits_spec(bits),
    decreases k,
{
    if k > 0 {
        let j = (k - 1) as nat;
        lemma_entries::<S>(items, j);
        let entry = items[k - 1];
        assert(items[k - 1] == entry);
        let bits = choose|bits: u64| says_real(entry, "max_value"@, bits);
        let model = choose|model: Tree|
            says(entry, "model"@, model) && dsp_of::<S>(model) is Ok;
        reals_are_found(entry, "max_value"@, bits);
        names_are_found(entry, "model"@, model);
        if k > 1 {
            let low = choose|low: u64|
                #[trigger] says_real(items[j - 1], "max_value"@, low) && subs_of::<S>(
                    items,
                    j,
                )->Ok_0.last().0 == S::Wide::from_bits_spec(low);
            assert(says_real(items[(k - 1) - 1], "max_value"@, low));
        }
        assert(says_real(items[k - 1], "max_value"@, bits));
    }
}

/// A document of a container is loaded where it has entries and they can be read.
pub proof fn container_documents_are_accepted<S: Scalar>(
    value: Tree,
    config: Tree,
    items: Seq<Tree>,
)
    requires
        says(value, "architecture"@, Tree::Text("SlimmableContainer"@)),
        says(value, "config"@, config),
        says(config, "submodels"@, Tree::Array(items)),
        items.len() > 0,
        entries_are_complete::<S>(items),
    ensures
        dsp_of::<S>(value) is Ok,
        dsp_of::<S>(value)->Ok_0 is Container,
{
    names_are_found(value, "architecture"@, Tree::Text("SlimmableContainer"@));
    names_are_found(value, "config"@, config);
    names_are_found(config, "submodels"@, Tree::Array(items));
    reveal_strlit("SlimmableContainer");
    reveal_strlit("LSTM");
    reveal_strlit("WaveNet");
    assert("SlimmableContainer"@.len() == 18);
    assert("LSTM"@.len() == 4);
    assert("WaveNet"@.len() == 7);
    lemma_entries::<S>(items, items.len());
}

/// The head after the stacks can be read where it has channels, taps for its
/// convolutions and an activation, and does not ask for other channels than the
/// stacks give.
pub proof fn complete_heads_are_accepted<S: Scalar>(
    config: Tree,
    inputs: usize,
    head: Tree,
    channels: usize,
    outputs: usize,
    items: Seq<Tree>,
    act: Tree,
)
    requires
        says(config, "head"@, head),
        head is Object,
        leaves_open(head, "in_channels"@) || says_whole(head, "in_channels"@, inputs),
        says_whole(head, "channels"@, channels),
        says_whole(head, "out_channels"@, outputs),
        says(head, "kernel_sizes"@, Tree::Array(items)),
        items.len() > 0,
        all_whole(items),
        says(head, "activation"@, act),
        act_of::<S>(act) is Ok,
    ensures
        head_of::<S>(config, inputs) is Ok,
{
    names_are_found(config, "head"@, head);
    if leaves_open(head, "in_channels"@) {
        open_names_are_no_fields(head, "in_channels"@);
    } else {
        wholes_are_found(head, "in_channels"@, inputs);
    }
    wholes_are_found(head, "channels"@, channels);
    wholes_are_found(head, "out_channels"@, outputs);
    names_are_found(head, "kernel_sizes"@, Tree::Array(items));
    lemma_all_whole(items, "head kernel_size"@);
    names_are_found(head, "activation"@, act);
}

/// A network for the condition is accepted where its own configuration and its own
/// weights can be read.
pub proof fn condition_documents_are_accepted<S: Scalar>(cd: Tree, inner: Tree)
    requires
        says(cd, "architecture"@, Tree::Text("WaveNet"@)),
        says(cd, "config"@, inner),
        weights_of::<S>(cd) is Ok,
        parsed(inner, weights_of::<S>(cd)->Ok_0) is Ok,
    ensures
        condition_of::<S>(cd) == parsed(inner, weights_of::<S>(cd)->Ok_0),
{
    names_are_found(cd, "architecture"@, Tree::Text("WaveNet"@));
    names_are_found(cd, "config"@, inner);
}

/// A network with a network for its condition is read where its parts can be, the
/// other network is accepted, and it can be made of both.
pub proof fn networks_with_conditions_are_accepted<S: Scalar>(
    config: Tree,
    data: Seq<S>,
    cd: Tree,
)
    requires
        parts_of::<S>(config) is Ok,
        says(config, "condition_dsp"@, cd),
        cd is Object,
        condition_of::<S>(cd) is Ok,
        ({
            let p = parts_of::<S>(config)->Ok_0;
            net_of(
                p.inputs as nat,
                p.arrays,
                p.head,
                Some(condition_of::<S>(cd)->Ok_0),
                data,
            ) is Ok
        }),
    ensures
        parsed(config, data) is Ok,
        parsed(config, data)->Ok_0.condition == Some(Box::new(condition_of::<S>(cd)->Ok_0)),
{
    names_are_found(config, "condition_dsp"@, cd);
}

/// Sizes are accepted where they ascend and end in all channels.
pub proof fn ascending_sizes_are_accepted(
    lc: Tree,
    s: Tree,
    kwargs: Tree,
    items: Seq<Tree>,
    sizes: Seq<usize>,
    channels: usize,
)
    requires
        uses_method(lc, s, "slice_channels_uniform"@),
        says(s, "kwargs"@, kwargs),
        says(kwargs, "allowed_channels"@, Tree::Array(items)),
        sizes.len() == items.len(),
        sizes.len() > 0,
        forall|i: int|
            0 <= i < items.len() ==> is_whole(
                #[trigger] items[i],
                sizes[i],
            ),
        forall|i: int, j: int| 0 <= i < j < sizes.len() ==> sizes[i] < sizes[j],
        sizes[sizes.len() - 1] == channels,
    ensures
        sizes_allowed(lc, channels) == Ok::<Seq<usize>, Seq<char>>(sizes),
{
    names_are_found(lc, "slimmable"@, s);
    names_are_found(s, "method"@, Tree::Text("slice_channels_uniform"@));
    names_are_found(s, "kwargs"@, kwargs);
    names_are_found(kwargs, "allowed_channels"@, Tree::Array(items));
    assert forall|i: int| 0 <= i < items.len() implies some_whole(#[trigger] items[i]) by {
        assert(is_whole(items[i], sizes[i]));
    }
    assert(all_whole(items));
    lemma_all_whole(items, "allowed_channels entry"@);
    let f = whole_reader("allowed_channels entry"@);
    let v = collected(items, f)->Ok_0;
    assert forall|i: int| 0 <= i < sizes.len() implies #[trigger] v[i] == sizes[i] by {
        lists_are_read_in_order(items, f, i);
        assert(is_whole(items[i], sizes[i]));
    }
    assert(v =~= sizes);
    assert(ascending(sizes));
}

} // verus!
