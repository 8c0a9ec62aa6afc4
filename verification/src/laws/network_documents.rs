//! What the document of a network says under a name is what the network has, and
//! which documents are accepted.

use crate::json::Tree;
use crate::laws::documents::{
    is_whole, lacks, leaves_open, lists_are_read_in_order, names_are_found,
    open_names_are_no_fields, other_names_are_not_found, readable_lists_are_read, reals_are_found,
    says, says_real, says_whole, wholes_are_found,
};
use crate::laws::stack_documents::{lemma_modes_differ, names_mode};
use crate::num::Scalar;
use crate::pure::activations::{act_of, Act};
use crate::pure::array_config::{
    acts_of, array_head_of, array_spec_of, defaulted, film_key, film_of, films_of, gate_reader,
    gates_of, kernels_of, mode_of, secondary_at, secondary_of, ArraySpec,
};
use crate::pure::config::{act_reader, collected, whole_reader};
use crate::pure::dsp::DspModel;
use crate::pure::dsp_config::dsp_of;
use crate::pure::layer::GatingMode;
use crate::pure::net::NetModel;
use crate::pure::net_build::net_of;
use crate::pure::net_config::{
    array_reader, head_of, inputs_of, parsed, specs_of, weight_reader, weights_of,
};
use crate::pure::plan::HeadPlan;
use crate::pure::slim::{sizes_error, slim_net};
use crate::pure::slim_config::{
    allowed_of, allowed_reader, sizes_allowed, slim_error, slimmable_of, slims_error, uses_uniform,
};
use vstd::prelude::*;
use vstd::string::*;

verus! {

// The head after the stacks ==================================================

/// The head after the stacks is the object under `head`: its channels, the
/// channels that it gives, the taps of each of its convolutions, and its
/// activation. It reads what the stacks give.
pub proof fn heads_are_read<S: Scalar>(
    config: Tree,
    inputs: usize,
    head: Tree,
    n: usize,
    items: Seq<Tree>,
    i: int,
    act: Tree,
)
    requires
        head_of::<S>(config, inputs) is Ok,
        says(config, "head"@, head),
        !(head is Null),
    ensures
        head_of::<S>(config, inputs)->Ok_0 is Some,
        ({
            let h = head_of::<S>(config, inputs)->Ok_0->0;
            &&& h.inputs == inputs
            &&& says_whole(head, "channels"@, n) ==> h.channels == n
            &&& says_whole(head, "out_channels"@, n) ==> h.outputs == n
            &&& says(head, "kernel_sizes"@, Tree::Array(items)) ==> h.kernels.len() == items.len()
            &&& says(head, "kernel_sizes"@, Tree::Array(items)) && 0 <= i < items.len()
                && is_whole(items[i], n) ==> h.kernels[i] == n
            &&& says(head, "activation"@, act) ==> act_of::<S>(act) == Ok::<Act<S>, Seq<char>>(
                h.act,
            )
        }),
{
    names_are_found(config, "head"@, head);
    if says_whole(head, "channels"@, n) {
        wholes_are_found(head, "channels"@, n);
    }
    if says_whole(head, "out_channels"@, n) {
        wholes_are_found(head, "out_channels"@, n);
    }
    if says(head, "kernel_sizes"@, Tree::Array(items)) {
        names_are_found(head, "kernel_sizes"@, Tree::Array(items));
        let f = whole_reader("head kernel_size"@);
        if items.len() > 0 {
            lists_are_read_in_order(items, f, 0);
            if 0 <= i < items.len() {
                lists_are_read_in_order(items, f, i);
            }
        }
    }
    if says(head, "activation"@, act) {
        names_are_found(head, "activation"@, act);
    }
}

/// A network without that object has no such head.
pub proof fn heads_can_be_left_open<S: Scalar>(config: Tree, inputs: usize)
    requires
        leaves_open(config, "head"@),
    ensures
        head_of::<S>(config, inputs) == Ok::<Option<HeadPlan<S>>, Seq<char>>(None),
{
    open_names_are_no_fields(config, "head"@);
}

/// A network reads the channels under `in_channels`, or one.
pub proof fn input_channels_are_read(config: Tree, n: usize)
    ensures
        says_whole(config, "in_channels"@, n) ==> inputs_of(config) == Ok::<usize, Seq<char>>(n),
        leaves_open(config, "in_channels"@) ==> inputs_of(config) == Ok::<usize, Seq<char>>(1),
{
    if says_whole(config, "in_channels"@, n) {
        wholes_are_found(config, "in_channels"@, n);
    }
    if leaves_open(config, "in_channels"@) {
        open_names_are_no_fields(config, "in_channels"@);
    }
}

// Conditions =================================================================

/// The network for the condition is the document under `condition_dsp`: the
/// network of its own configuration and its own weights.
pub proof fn condition_networks_are_read<S: Scalar>(
    config: Tree,
    data: Seq<S>,
    cd: Tree,
    inner: Tree,
)
    requires
        parsed(config, data) is Ok,
        says(config, "condition_dsp"@, cd),
        cd is Object,
        says(cd, "config"@, inner),
    ensures
        weights_of::<S>(cd) is Ok,
        parsed(config, data)->Ok_0.condition matches Some(net) && parsed(
            inner,
            weights_of::<S>(cd)->Ok_0,
        ) == Ok::<NetModel<S>, Seq<char>>(*net),
{
    names_are_found(config, "condition_dsp"@, cd);
    names_are_found(cd, "config"@, inner);
}

/// A network without that document makes no condition of its own.
pub proof fn conditions_can_be_left_open<S: Scalar>(config: Tree, data: Seq<S>)
    requires
        parsed(config, data) is Ok,
        leaves_open(config, "condition_dsp"@),
    ensures
        parsed(config, data)->Ok_0.condition is None,
{
    open_names_are_no_fields(config, "condition_dsp"@);
}

/// A loaded network is made of the stacks, the head and the channels that its
/// configuration says, and of the weights of the file.
pub proof fn networks_are_read<S: Scalar>(value: Tree, config: Tree)
    requires
        says(value, "architecture"@, Tree::Text("WaveNet"@)),
        says(value, "config"@, config),
        leaves_open(config, "condition_dsp"@),
        slimmable_of(config) == Ok::<bool, Seq<char>>(false),
        dsp_of::<S>(value) is Ok,
    ensures
        weights_of::<S>(value) is Ok,
        specs_of::<S>(config) is Ok,
        inputs_of(config) is Ok,
        ({
            let arrays = specs_of::<S>(config)->Ok_0;
            let head = head_of::<S>(config, arrays.last().head_size);
            &&& head is Ok
            &&& dsp_of::<S>(value)->Ok_0 matches DspModel::Net(net) && net_of(
                inputs_of(config)->Ok_0 as nat,
                arrays,
                head->Ok_0,
                None,
                weights_of::<S>(value)->Ok_0,
            ) == Ok::<NetModel<S>, Seq<char>>(net)
        }),
{
    names_are_found(value, "architecture"@, Tree::Text("WaveNet"@));
    names_are_found(value, "config"@, config);
    open_names_are_no_fields(config, "condition_dsp"@);
}

// Sizes that can be selected =================================================

/// A stack uses a method to be reduced.
pub open spec fn uses_method(lc: Tree, s: Tree, method: Seq<char>) -> bool {
    &&& says(lc, "slimmable"@, s)
    &&& s is Object
    &&& says(s, "method"@, Tree::Text(method))
}

/// The sizes of a stack that is sliced are the entries of its list, in order.
pub proof fn allowed_sizes_are_read_in_order(
    lc: Tree,
    s: Tree,
    kwargs: Tree,
    items: Seq<Tree>,
    channels: usize,
    i: int,
    n: usize,
)
    requires
        uses_method(lc, s, "slice_channels_uniform"@),
        says(s, "kwargs"@, kwargs),
        says(kwargs, "allowed_channels"@, Tree::Array(items)),
        sizes_allowed(lc, channels) is Ok,
        0 <= i < items.len(),
        is_whole(items[i], n),
    ensures
        sizes_allowed(lc, channels)->Ok_0.len() == items.len(),
        sizes_allowed(lc, channels)->Ok_0[i] == n,
        sizes_allowed(lc, channels)->Ok_0[items.len() - 1] == channels,
        forall|j: int, k: int|
            0 <= j < k < items.len() ==> sizes_allowed(lc, channels)->Ok_0[j] < sizes_allowed(
                lc,
                channels,
            )->Ok_0[k],
{
    names_are_found(lc, "slimmable"@, s);
    names_are_found(s, "method"@, Tree::Text("slice_channels_uniform"@));
    names_are_found(s, "kwargs"@, kwargs);
    names_are_found(kwargs, "allowed_channels"@, Tree::Array(items));
    lists_are_read_in_order(items, whole_reader("allowed_channels entry"@), i);
}

/// Without a list all sizes from one to the full one can be selected.
pub proof fn all_sizes_are_allowed_by_default(lc: Tree, s: Tree, channels: usize, i: int)
    requires
        uses_method(lc, s, "slice_channels_uniform"@),
        lacks(s, "kwargs"@),
        channels > 0,
        0 <= i < channels,
    ensures
        sizes_allowed(lc, channels) is Ok,
        sizes_allowed(lc, channels)->Ok_0.len() == channels,
        sizes_allowed(lc, channels)->Ok_0[i] == i + 1,
{
    names_are_found(lc, "slimmable"@, s);
    names_are_found(s, "method"@, Tree::Text("slice_channels_uniform"@));
    other_names_are_not_found(s, "kwargs"@);
}

/// A stack that says nothing of sizes, or is reduced in another way, keeps its
/// channels.
pub proof fn other_stacks_keep_their_channels(
    lc: Tree,
    s: Tree,
    method: Seq<char>,
    channels: usize,
)
    requires
        leaves_open(lc, "slimmable"@) || (uses_method(lc, s, method) && method
            != "slice_channels_uniform"@),
    ensures
        sizes_allowed(lc, channels) is Ok,
        sizes_allowed(lc, channels)->Ok_0.len() == 0,
{
    if leaves_open(lc, "slimmable"@) {
        open_names_are_no_fields(lc, "slimmable"@);
    } else {
        names_are_found(lc, "slimmable"@, s);
        names_are_found(s, "method"@, Tree::Text(method));
    }
}

/// The sizes of stack `i` are those of entry `i` of the list of stacks.
pub proof fn sizes_are_read_in_order<S: Scalar>(
    config: Tree,
    arrays: Seq<ArraySpec<S>>,
    items: Seq<Tree>,
    i: int,
)
    requires
        says(config, "layers"@, Tree::Array(items)),
        allowed_of(config, arrays) is Ok,
        0 <= i < items.len(),
    ensures
        allowed_of(config, arrays)->Ok_0.len() == items.len(),
        sizes_allowed(items[i], arrays[i].channels) == Ok::<Seq<usize>, Seq<char>>(
            allowed_of(config, arrays)->Ok_0[i],
        ),
{
    names_are_found(config, "layers"@, Tree::Array(items));
    lists_are_read_in_order(items, allowed_reader(arrays), i);
}

// Documents that are accepted ================================================

/// A value is a whole number.
pub open spec fn some_whole(v: Tree) -> bool {
    exists|n: usize| is_whole(v, n)
}

/// All entries of a list are whole numbers.
pub open spec fn all_whole(items: Seq<Tree>) -> bool {
    forall|i: int| 0 <= i < items.len() ==> some_whole(#[trigger] items[i])
}

/// A name is left open, or says a whole number.
pub open spec fn whole_or_open(t: Tree, name: Seq<char>) -> bool {
    leaves_open(t, name) || exists|n: usize| says_whole(t, name, n)
}

/// A stack gives its head: as an object with channels, taps and bias, or by
/// channels and bias alone.
pub open spec fn gives_head(lc: Tree) -> bool {
    ||| exists|h: Tree| #[trigger]
        says(lc, "head"@, h) && h is Object && (exists|n: usize|
            says_whole(h, "out_channels"@, n)) && (exists|n: usize|
            says_whole(h, "kernel_size"@, n)) && (exists|b: bool|
            says(h, "bias"@, Tree::Bool(b))) && whole_or_open(h, "head_dilation"@)
    ||| leaves_open(lc, "head"@) && (exists|n: usize| says_whole(lc, "head_size"@, n)) && (
    exists|b: bool| says(lc, "head_bias"@, Tree::Bool(b)))
}

/// A stack gives the taps of its `n` layers.
pub open spec fn gives_kernels(lc: Tree, n: nat) -> bool {
    ||| exists|items: Seq<Tree>| #[trigger]
        says(lc, "kernel_sizes"@, Tree::Array(items)) && items.len() == n && all_whole(items)
    ||| leaves_open(lc, "kernel_sizes"@) && exists|k: usize| says_whole(lc, "kernel_size"@, k)
}

/// A stack gives the activations of its `n` layers.
pub open spec fn gives_activations<S: Scalar>(lc: Tree, n: nat) -> bool {
    ||| exists|items: Seq<Tree>| #[trigger]
        says(lc, "activation"@, Tree::Array(items)) && items.len() == n && (forall|i: int|
            0 <= i < n ==> (act_of::<S>(#[trigger] items[i])) is Ok)
    ||| exists|v: Tree| #[trigger]
        says(lc, "activation"@, v) && !(v is Array) && !(v is Null) && act_of::<S>(v) is Ok
}

/// A text that names a mode.
pub open spec fn is_mode(v: Tree) -> bool {
    v matches Tree::Text(name) && exists|mode: GatingMode| names_mode(name, mode)
}

/// A stack gives what the upper halves of its `n` layers do: nothing of it, or a
/// mode for each or for all, with activations that can be read or are left open.
pub open spec fn gives_gates<S: Scalar>(lc: Tree, n: nat) -> bool {
    ||| leaves_open(lc, "gating_mode"@)
    ||| exists|v: Tree| #[trigger]
        says(lc, "gating_mode"@, v) && is_mode(v) && (leaves_open(lc, "secondary_activation"@)
            || exists|a: Tree| #[trigger]
            says(lc, "secondary_activation"@, a) && act_of::<S>(a) is Ok)
    ||| exists|items: Seq<Tree>| #[trigger]
        says(lc, "gating_mode"@, Tree::Array(items)) && items.len() == n && (forall|i: int|
            0 <= i < n ==> is_mode(#[trigger] items[i])) && gives_secondary::<S>(lc)
}

/// A stack gives activations for upper halves, or leaves them open.
pub open spec fn gives_secondary<S: Scalar>(lc: Tree) -> bool {
    ||| leaves_open(lc, "secondary_activation"@)
    ||| exists|a: Tree| #[trigger]
        says(lc, "secondary_activation"@, a) && !(a is Array) && act_of::<S>(a) is Ok
    ||| exists|list: Seq<Tree>| #[trigger]
        says(lc, "secondary_activation"@, Tree::Array(list)) && (forall|i: int|
            0 <= i < list.len() ==> #[trigger] list[i] is Null || act_of::<S>(list[i]) is Ok)
}

/// A modulation is left open, switched off, or given by an object.
pub open spec fn gives_film(lc: Tree, name: Seq<char>) -> bool {
    ||| no_film(lc, name)
    ||| exists|v: Tree| #[trigger] says(lc, name, v) && v is Object && whole_or_open(v, "groups"@)
}

/// A modulation is left open or switched off.
pub open spec fn no_film(lc: Tree, name: Seq<char>) -> bool {
    leaves_open(lc, name) || says(lc, name, Tree::Bool(false))
}

/// A projection is switched on or off under a name.
pub open spec fn switched(lc: Tree, name: Seq<char>, on: bool) -> bool {
    exists|v: Tree| #[trigger] says(lc, name, v) && v is Object && says(v, "active"@, Tree::Bool(on))
}

/// What a stack asks for goes together: without the projection to the residual
/// there are as many channels after the activation and nothing to modulate, and
/// without the projection to the skip output there is nothing to modulate.
pub open spec fn goes_together(lc: Tree) -> bool {
    &&& {
        ||| leaves_open(lc, "layer1x1"@)
        ||| switched(lc, "layer1x1"@, true)
        ||| switched(lc, "layer1x1"@, false) && leaves_open(lc, "bottleneck"@) && no_film(
            lc,
            "layer1x1_post_film"@,
        )
    }
    &&& no_film(lc, "head1x1_post_film"@) || switched(lc, "head1x1"@, true)
}

/// A stack can be read: it gives its sizes, its head and a list for its layers,
/// and its projections and modulations go together.
pub open spec fn is_complete<S: Scalar>(lc: Tree, dilations: Seq<Tree>) -> bool {
    &&& exists|n: usize| says_whole(lc, "channels"@, n)
    &&& exists|n: usize| says_whole(lc, "input_size"@, n)
    &&& exists|n: usize| says_whole(lc, "condition_size"@, n)
    &&& whole_or_open(lc, "bottleneck"@)
    &&& whole_or_open(lc, "groups_input"@)
    &&& whole_or_open(lc, "groups_input_mixin"@)
    &&& goes_together(lc)
    &&& gives_head(lc)
    &&& says(lc, "dilations"@, Tree::Array(dilations))
    &&& all_whole(dilations)
    &&& gives_kernels(lc, dilations.len())
    &&& gives_activations::<S>(lc, dilations.len())
    &&& gives_gates::<S>(lc, dilations.len())
    &&& gives_film(lc, "conv_pre_film"@)
    &&& gives_film(lc, "conv_post_film"@)
    &&& gives_film(lc, "input_mixin_pre_film"@)
    &&& gives_film(lc, "input_mixin_post_film"@)
    &&& gives_film(lc, "activation_pre_film"@)
    &&& gives_film(lc, "activation_post_film"@)
    &&& gives_film(lc, "layer1x1_post_film"@)
    &&& gives_film(lc, "head1x1_post_film"@)
}

/// A whole number or nothing is read.
proof fn lemma_whole_or_open(t: Tree, name: Seq<char>, what: Seq<char>, default: usize)
    requires
        whole_or_open(t, name),
    ensures
        defaulted(t.field(name), what, default) is Ok,
{
    if leaves_open(t, name) {
        open_names_are_no_fields(t, name);
    } else {
        let n = choose|n: usize| says_whole(t, name, n);
        wholes_are_found(t, name, n);
    }
}

/// A list of whole numbers is read.
pub proof fn lemma_all_whole(items: Seq<Tree>, what: Seq<char>)
    requires
        all_whole(items),
    ensures
        collected(items, whole_reader(what)) is Ok,
        collected(items, whole_reader(what))->Ok_0.len() == items.len(),
{
    let f = whole_reader(what);
    assert forall|i: int| 0 <= i < items.len() implies (#[trigger] f(items[i], i)) is Ok by {
        assert(some_whole(items[i]));
    }
    readable_lists_are_read(items, f);
}

/// The head of a complete stack is read.
proof fn lemma_head_read(lc: Tree, idx: int)
    requires
        gives_head(lc),
    ensures
        array_head_of(lc, idx) is Ok,
{
    if leaves_open(lc, "head"@) && (exists|n: usize| says_whole(lc, "head_size"@, n)) && (
    exists|b: bool| says(lc, "head_bias"@, Tree::Bool(b))) {
        open_names_are_no_fields(lc, "head"@);
        let n = choose|n: usize| says_whole(lc, "head_size"@, n);
        wholes_are_found(lc, "head_size"@, n);
        let b = choose|b: bool| says(lc, "head_bias"@, Tree::Bool(b));
        names_are_found(lc, "head_bias"@, Tree::Bool(b));
    } else {
        let h = choose|h: Tree| #[trigger]
            says(lc, "head"@, h) && h is Object && (exists|n: usize|
                says_whole(h, "out_channels"@, n)) && (exists|n: usize|
                says_whole(h, "kernel_size"@, n)) && (exists|b: bool|
                says(h, "bias"@, Tree::Bool(b))) && whole_or_open(h, "head_dilation"@);
        names_are_found(lc, "head"@, h);
        let n = choose|n: usize| says_whole(h, "out_channels"@, n);
        wholes_are_found(h, "out_channels"@, n);
        let k = choose|k: usize| says_whole(h, "kernel_size"@, k);
        wholes_are_found(h, "kernel_size"@, k);
        let b = choose|b: bool| says(h, "bias"@, Tree::Bool(b));
        names_are_found(h, "bias"@, Tree::Bool(b));
        lemma_whole_or_open(h, "head_dilation"@, "head.head_dilation"@, 1);
    }
}

/// The taps of a complete stack are read.
proof fn lemma_kernels_read(lc: Tree, idx: int, n: nat)
    requires
        gives_kernels(lc, n),
    ensures
        kernels_of(lc, idx, n) is Ok,
{
    if leaves_open(lc, "kernel_sizes"@) && exists|k: usize| says_whole(lc, "kernel_size"@, k) {
        open_names_are_no_fields(lc, "kernel_sizes"@);
        let k = choose|k: usize| says_whole(lc, "kernel_size"@, k);
        wholes_are_found(lc, "kernel_size"@, k);
    } else {
        let items = choose|items: Seq<Tree>| #[trigger]
            says(lc, "kernel_sizes"@, Tree::Array(items)) && items.len() == n && all_whole(items);
        names_are_found(lc, "kernel_sizes"@, Tree::Array(items));
        lemma_all_whole(items, "kernel_size"@);
    }
}

/// The activations of a complete stack are read.
proof fn lemma_acts_read<S: Scalar>(lc: Tree, idx: int, n: nat)
    requires
        gives_activations::<S>(lc, n),
    ensures
        acts_of::<S>(lc, idx, n) is Ok,
{
    if exists|v: Tree| #[trigger]
        says(lc, "activation"@, v) && !(v is Array) && !(v is Null) && act_of::<S>(v) is Ok {
        let v = choose|v: Tree| #[trigger]
            says(lc, "activation"@, v) && !(v is Array) && !(v is Null) && act_of::<S>(v) is Ok;
        names_are_found(lc, "activation"@, v);
    } else {
        let items = choose|items: Seq<Tree>| #[trigger]
            says(lc, "activation"@, Tree::Array(items)) && items.len() == n && (forall|i: int|
                0 <= i < n ==> (act_of::<S>(#[trigger] items[i])) is Ok);
        names_are_found(lc, "activation"@, Tree::Array(items));
        let f = act_reader::<S>();
        assert forall|i: int| 0 <= i < items.len() implies (#[trigger] f(items[i], i)) is Ok by {
            assert(act_of::<S>(items[i]) is Ok);
        }
        readable_lists_are_read(items, f);
    }
}

/// A mode is read.
proof fn lemma_mode_read(v: Tree)
    requires
        is_mode(v),
    ensures
        mode_of(v) is Ok,
{
    let name = v->Text_0;
    let mode = choose|mode: GatingMode| names_mode(name, mode);
    lemma_modes_differ(name, mode);
}

/// The activations of the upper halves of a complete stack are read.
proof fn lemma_secondary_read<S: Scalar>(lc: Tree, mode: GatingMode, i: int)
    requires
        gives_secondary::<S>(lc),
        0 <= i,
    ensures
        secondary_of::<S>(
            mode,
            secondary_at(lc.field("secondary_activation"@), i),
        ) is Ok,
{
    let name = "secondary_activation"@;
    if leaves_open(lc, name) {
        open_names_are_no_fields(lc, name);
    } else if exists|a: Tree| #[trigger]
        says(lc, name, a) && !(a is Array) && act_of::<S>(a) is Ok {
        let a = choose|a: Tree| #[trigger]
            says(lc, name, a) && !(a is Array) && act_of::<S>(a) is Ok;
        names_are_found(lc, name, a);
    } else {
        let list = choose|list: Seq<Tree>| #[trigger]
            says(lc, name, Tree::Array(list)) && (forall|i: int|
                0 <= i < list.len() ==> #[trigger] list[i] is Null || act_of::<S>(list[i]) is Ok);
        names_are_found(lc, name, Tree::Array(list));
        if i < list.len() {
            assert(list[i] is Null || act_of::<S>(list[i]) is Ok);
        }
    }
}

/// What the upper halves of a complete stack do is read.
proof fn lemma_gates_read<S: Scalar>(lc: Tree, idx: int, n: nat)
    requires
        gives_gates::<S>(lc, n),
    ensures
        gates_of::<S>(lc, idx, n) is Ok,
{
    let name = "secondary_activation"@;
    if leaves_open(lc, "gating_mode"@) {
        open_names_are_no_fields(lc, "gating_mode"@);
    } else if exists|v: Tree| #[trigger]
        says(lc, "gating_mode"@, v) && is_mode(v) && (leaves_open(lc, name) || exists|a: Tree|
            #[trigger]
            says(lc, name, a) && act_of::<S>(a) is Ok) {
        let v = choose|v: Tree| #[trigger]
            says(lc, "gating_mode"@, v) && is_mode(v) && (leaves_open(lc, name) || exists|a: Tree|
                #[trigger]
                says(lc, name, a) && act_of::<S>(a) is Ok);
        names_are_found(lc, "gating_mode"@, v);
        lemma_mode_read(v);
        if leaves_open(lc, name) {
            open_names_are_no_fields(lc, name);
        } else {
            let a = choose|a: Tree| #[trigger] says(lc, name, a) && act_of::<S>(a) is Ok;
            names_are_found(lc, name, a);
        }
    } else {
        let items = choose|items: Seq<Tree>| #[trigger]
            says(lc, "gating_mode"@, Tree::Array(items)) && items.len() == n && (forall|i: int|
                0 <= i < n ==> is_mode(#[trigger] items[i])) && gives_secondary::<S>(lc);
        names_are_found(lc, "gating_mode"@, Tree::Array(items));
        let f = gate_reader::<S>(lc.field(name), idx);
        assert forall|i: int| 0 <= i < items.len() implies (#[trigger] f(items[i], i)) is Ok by {
            assert(is_mode(items[i]));
            lemma_mode_read(items[i]);
            let mode = mode_of(items[i])->Ok_0;
            lemma_secondary_read::<S>(lc, mode, i);
        }
        readable_lists_are_read(items, f);
    }
}

/// A modulation is read.
proof fn lemma_film_read(lc: Tree, name: Seq<char>, idx: int)
    requires
        gives_film(lc, name),
    ensures
        film_of(lc, name, idx) is Ok,
        no_film(lc, name) ==> !film_of(lc, name, idx)->Ok_0.active,
{
    if leaves_open(lc, name) {
        open_names_are_no_fields(lc, name);
    } else if says(lc, name, Tree::Bool(false)) {
        names_are_found(lc, name, Tree::Bool(false));
    } else {
        let v = choose|v: Tree| #[trigger]
            says(lc, name, v) && v is Object && whole_or_open(v, "groups"@);
        names_are_found(lc, name, v);
        lemma_whole_or_open(v, "groups"@, name + ".groups"@, 1);
    }
}

/// The modulations of a stack are read.
proof fn lemma_films_read(lc: Tree, idx: int, k: nat)
    requires
        k <= 8,
        forall|slot: int| 0 <= slot < 8 ==> gives_film(lc, #[trigger] film_key(slot)),
    ensures
        films_of(lc, idx, k) is Ok,
        films_of(lc, idx, k)->Ok_0.len() == k,
        forall|slot: int|
            0 <= slot < k && no_film(lc, #[trigger] film_key(slot)) ==> !films_of(
                lc,
                idx,
                k,
            )->Ok_0[slot].active,
    decreases k,
{
    if k > 0 {
        lemma_films_read(lc, idx, (k - 1) as nat);
        assert(gives_film(lc, film_key(k - 1)));
        lemma_film_read(lc, film_key(k - 1), idx);
    }
}

/// A switch is found.
proof fn lemma_switched(lc: Tree, name: Seq<char>, on: bool)
    requires
        switched(lc, name, on),
    ensures
        lc.field(name) is Some,
        lc.field(name)->0.get("active"@) == Some(Tree::Bool(on)),
{
    let v = choose|v: Tree| #[trigger]
        says(lc, name, v) && v is Object && says(v, "active"@, Tree::Bool(on));
    names_are_found(lc, name, v);
    names_are_found(v, "active"@, Tree::Bool(on));
}

/// Complete stacks are read.
pub proof fn complete_stacks_are_accepted<S: Scalar>(lc: Tree, idx: int, dilations: Seq<Tree>)
    requires
        is_complete::<S>(lc, dilations),
    ensures
        array_spec_of::<S>(lc, idx) is Ok,
{
    let c = choose|n: usize| says_whole(lc, "channels"@, n);
    wholes_are_found(lc, "channels"@, c);
    let i = choose|n: usize| says_whole(lc, "input_size"@, n);
    wholes_are_found(lc, "input_size"@, i);
    let d = choose|n: usize| says_whole(lc, "condition_size"@, n);
    wholes_are_found(lc, "condition_size"@, d);
    lemma_whole_or_open(lc, "bottleneck"@, "bottleneck"@, c);
    lemma_whole_or_open(lc, "groups_input"@, "groups_input"@, 1);
    lemma_whole_or_open(lc, "groups_input_mixin"@, "groups_input_mixin"@, 1);
    if leaves_open(lc, "layer1x1"@) {
        open_names_are_no_fields(lc, "layer1x1"@);
    } else if switched(lc, "layer1x1"@, true) {
        lemma_switched(lc, "layer1x1"@, true);
    } else {
        lemma_switched(lc, "layer1x1"@, false);
        open_names_are_no_fields(lc, "bottleneck"@);
    }
    if switched(lc, "head1x1"@, true) {
        lemma_switched(lc, "head1x1"@, true);
    }
    lemma_head_read(lc, idx);
    names_are_found(lc, "dilations"@, Tree::Array(dilations));
    lemma_all_whole(dilations, "dilation"@);
    lemma_kernels_read(lc, idx, dilations.len());
    lemma_acts_read::<S>(lc, idx, dilations.len());
    lemma_gates_read::<S>(lc, idx, dilations.len());
    lemma_films_read(lc, idx, 8);
    assert(film_key(6) == "layer1x1_post_film"@);
    assert(film_key(7) == "head1x1_post_film"@);
}

/// A list of numbers is a list of weights.
pub proof fn numbers_are_accepted_as_weights<S: Scalar>(value: Tree, items: Seq<Tree>)
    requires
        says(value, "weights"@, Tree::Array(items)),
        forall|i: int|
            0 <= i < items.len() ==> (#[trigger] items[i] matches Tree::Number(x)
                && x.real is Some),
    ensures
        weights_of::<S>(value) is Ok,
        weights_of::<S>(value)->Ok_0.len() == items.len(),
{
    names_are_found(value, "weights"@, Tree::Array(items));
    let f = weight_reader::<S>();
    assert forall|i: int| 0 <= i < items.len() implies (#[trigger] f(items[i], i)) is Ok by {
        assert(items[i] matches Tree::Number(x) && x.real is Some);
    }
    readable_lists_are_read(items, f);
}

/// A document of a network is loaded where its stacks, its head and its channels
/// can be read, it gives a scale, and the network can be made of its weights.
pub proof fn network_documents_are_accepted<S: Scalar>(
    value: Tree,
    config: Tree,
    items: Seq<Tree>,
    bits: u64,
)
    requires
        says(value, "architecture"@, Tree::Text("WaveNet"@)),
        says(value, "config"@, config),
        says(config, "layers"@, Tree::Array(items)),
        items.len() > 0,
        forall|i: int| 0 <= i < items.len() ==> (array_spec_of::<S>(#[trigger] items[i], i)) is Ok,
        says_real(config, "head_scale"@, bits),
        whole_or_open(config, "in_channels"@),
        leaves_open(config, "condition_dsp"@),
        slimmable_of(config) == Ok::<bool, Seq<char>>(false),
        weights_of::<S>(value) is Ok,
        ({
            let arrays = specs_of::<S>(config)->Ok_0;
            let head = head_of::<S>(config, arrays.last().head_size);
            &&& head is Ok
            &&& net_of(
                inputs_of(config)->Ok_0 as nat,
                arrays,
                head->Ok_0,
                None,
                weights_of::<S>(value)->Ok_0,
            ) is Ok
        }),
    ensures
        dsp_of::<S>(value) is Ok,
        dsp_of::<S>(value)->Ok_0 is Net,
{
    names_are_found(value, "architecture"@, Tree::Text("WaveNet"@));
    names_are_found(value, "config"@, config);
    names_are_found(config, "layers"@, Tree::Array(items));
    reals_are_found(config, "head_scale"@, bits);
    lemma_whole_or_open(config, "in_channels"@, "in_channels"@, 1);
    open_names_are_no_fields(config, "condition_dsp"@);
    let f = array_reader::<S>();
    assert forall|i: int| 0 <= i < items.len() implies (#[trigger] f(items[i], i)) is Ok by {
        assert(array_spec_of::<S>(items[i], i) is Ok);
    }
    readable_lists_are_read(items, f);
}

// Networks that can be reduced ===============================================

/// A stack can be reduced exactly where its head has one tap and nothing in it has
/// groups.
pub proof fn stacks_that_can_be_reduced<S>(a: ArraySpec<S>)
    ensures
        slim_error(a) is None <==> {
            &&& a.head_kernel_size == 1
            &&& a.groups_input == 1
            &&& a.groups_input_mixin == 1
            &&& a.layer1x1_active ==> a.layer1x1_groups == 1
            &&& a.head1x1_active ==> a.head1x1_groups == 1
            &&& forall|k: int|
                0 <= k < a.films.len() ==> (#[trigger] a.films[k]).active ==> a.films[k].groups
                    == 1
        },
{
}

/// A network that can be reduced is made of the stacks, the channels, the sizes
/// and the document for the condition that its configuration says, and of the
/// weights of the file; at first it has all its channels.
pub proof fn reducible_networks_are_read<S: Scalar>(
    value: Tree,
    config: Tree,
    items: Seq<Tree>,
    j: int,
    s: Tree,
    cd: Tree,
)
    requires
        says(value, "architecture"@, Tree::Text("WaveNet"@)),
        says(value, "config"@, config),
        says(config, "layers"@, Tree::Array(items)),
        0 <= j < items.len(),
        uses_method(items[j], s, "slice_channels_uniform"@),
        dsp_of::<S>(value) is Ok,
    ensures
        weights_of::<S>(value) is Ok,
        specs_of::<S>(config) is Ok,
        dsp_of::<S>(value)->Ok_0 matches DspModel::Slim(m, channels, net) && {
            &&& m.arrays == specs_of::<S>(config)->Ok_0
            &&& m.weights == weights_of::<S>(value)->Ok_0
            &&& inputs_of(config) == Ok::<usize, Seq<char>>(m.inputs)
            &&& allowed_of(config, m.arrays) == Ok::<Seq<Seq<usize>>, Seq<char>>(m.allowed)
            &&& leaves_open(config, "condition_dsp"@) ==> m.condition is None
            &&& says(config, "condition_dsp"@, cd) && !(cd is Null) ==> m.condition == Some(cd)
            &&& channels.len() == m.arrays.len()
            &&& forall|i: int|
                0 <= i < channels.len() ==> #[trigger] channels[i] == m.arrays[i].channels
            &&& slim_net(m, channels) == Ok::<NetModel<S>, Seq<char>>(net)
            &&& leaves_open(config, "condition_dsp"@) ==> net_of(
                m.inputs as nat,
                m.arrays,
                None,
                None,
                m.weights,
            ) == Ok::<NetModel<S>, Seq<char>>(net)
        },
{
    names_are_found(value, "architecture"@, Tree::Text("WaveNet"@));
    names_are_found(value, "config"@, config);
    names_are_found(config, "layers"@, Tree::Array(items));
    names_are_found(items[j], "slimmable"@, s);
    names_are_found(s, "method"@, Tree::Text("slice_channels_uniform"@));
    assert(uses_uniform(items[j]));
    if leaves_open(config, "condition_dsp"@) {
        open_names_are_no_fields(config, "condition_dsp"@);
    }
    if says(config, "condition_dsp"@, cd) {
        names_are_found(config, "condition_dsp"@, cd);
    }
}

/// A document of a network that can be reduced is loaded where its stacks, its
/// channels and its sizes can be read, it gives a scale and no head after the
/// stacks, every stack can be reduced, the full network can be made, and no size
/// is refused.
pub proof fn reducible_documents_are_accepted<S: Scalar>(
    value: Tree,
    config: Tree,
    items: Seq<Tree>,
    j: int,
    s: Tree,
    bits: u64,
)
    requires
        says(value, "architecture"@, Tree::Text("WaveNet"@)),
        says(value, "config"@, config),
        says(config, "layers"@, Tree::Array(items)),
        0 <= j < items.len(),
        uses_method(items[j], s, "slice_channels_uniform"@),
        forall|i: int| 0 <= i < items.len() ==> (array_spec_of::<S>(#[trigger] items[i], i)) is Ok,
        says_real(config, "head_scale"@, bits),
        whole_or_open(config, "in_channels"@),
        leaves_open(config, "head"@),
        leaves_open(config, "condition_dsp"@),
        weights_of::<S>(value) is Ok,
        ({
            let arrays = specs_of::<S>(config)->Ok_0;
            let allowed = allowed_of(config, arrays);
            &&& allowed is Ok
            &&& forall|i: int|
                0 <= i < arrays.len() ==> slim_error(#[trigger] arrays[i]) is None
            &&& net_of(
                inputs_of(config)->Ok_0 as nat,
                arrays,
                None,
                None,
                weights_of::<S>(value)->Ok_0,
            ) is Ok
            &&& sizes_error(arrays, allowed->Ok_0) is None
        }),
    ensures
        dsp_of::<S>(value) is Ok,
        dsp_of::<S>(value)->Ok_0 is Slim,
{
    names_are_found(value, "architecture"@, Tree::Text("WaveNet"@));
    names_are_found(value, "config"@, config);
    names_are_found(config, "layers"@, Tree::Array(items));
    names_are_found(items[j], "slimmable"@, s);
    names_are_found(s, "method"@, Tree::Text("slice_channels_uniform"@));
    assert(uses_uniform(items[j]));
    reals_are_found(config, "head_scale"@, bits);
    lemma_whole_or_open(config, "in_channels"@, "in_channels"@, 1);
    open_names_are_no_fields(config, "head"@);
    open_names_are_no_fields(config, "condition_dsp"@);
    let f = array_reader::<S>();
    assert forall|i: int| 0 <= i < items.len() implies (#[trigger] f(items[i], i)) is Ok by {
        assert(array_spec_of::<S>(items[i], i) is Ok);
    }
    readable_lists_are_read(items, f);
    let arrays = specs_of::<S>(config)->Ok_0;
    lemma_no_slims_error(arrays, arrays.len());
}

/// Where every stack can be reduced none is complained of.
proof fn lemma_no_slims_error<S>(arrays: Seq<ArraySpec<S>>, k: nat)
    requires
        k <= arrays.len(),
        forall|i: int| 0 <= i < arrays.len() ==> slim_error(#[trigger] arrays[i]) is None,
    ensures
        slims_error(arrays, k) is None,
    decreases k,
{
    if k > 0 {
        lemma_no_slims_error(arrays, (k - 1) as nat);
    }
}

} // verus!
