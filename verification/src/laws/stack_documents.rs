//! What the document of a stack of layers says under a name is what the stack
//! has, entry by entry.

use crate::json::Tree;
use crate::laws::documents::{
    is_whole, lacks, leaves_open, lists_are_read_in_order, names_are_found,
    open_names_are_no_fields, other_names_are_not_found, readable_lists_are_read, says, says_whole,
    wholes_are_found,
};
use crate::num::Scalar;
use crate::pure::activations::{act_of, Act};
use crate::pure::array_config::{
    array_spec_of, film_key, film_of, films_of, gate_reader, kernels_of, mode_named, secondary_at,
    ArraySpec,
};
use crate::pure::config::{act_reader, whole_reader};
use crate::pure::layer::GatingMode;
use crate::pure::net_config::{array_reader, specs_of};
use vstd::prelude::*;
use vstd::string::*;

verus! {

// Sizes ======================================================================

/// The sizes of a stack are the whole numbers under their names; the channels
/// after the activations are those of the layers where they are left open, and
/// groups are one.
pub proof fn stack_sizes_are_read<S: Scalar>(lc: Tree, idx: int, n: usize)
    requires
        array_spec_of::<S>(lc, idx) is Ok,
    ensures
        ({
            let a = array_spec_of::<S>(lc, idx)->Ok_0;
            &&& says_whole(lc, "channels"@, n) ==> a.channels == n
            &&& says_whole(lc, "bottleneck"@, n) ==> a.bottleneck == n
            &&& leaves_open(lc, "bottleneck"@) ==> a.bottleneck == a.channels
            &&& says_whole(lc, "input_size"@, n) ==> a.input_size == n
            &&& says_whole(lc, "condition_size"@, n) ==> a.condition_size == n
            &&& says_whole(lc, "groups_input"@, n) ==> a.groups_input == n
            &&& leaves_open(lc, "groups_input"@) ==> a.groups_input == 1
            &&& says_whole(lc, "groups_input_mixin"@, n) ==> a.groups_input_mixin == n
            &&& leaves_open(lc, "groups_input_mixin"@) ==> a.groups_input_mixin == 1
        }),
{
    if says_whole(lc, "channels"@, n) {
        wholes_are_found(lc, "channels"@, n);
    }
    if says_whole(lc, "bottleneck"@, n) {
        wholes_are_found(lc, "bottleneck"@, n);
    }
    if leaves_open(lc, "bottleneck"@) {
        open_names_are_no_fields(lc, "bottleneck"@);
    }
    if says_whole(lc, "input_size"@, n) {
        wholes_are_found(lc, "input_size"@, n);
    }
    if says_whole(lc, "condition_size"@, n) {
        wholes_are_found(lc, "condition_size"@, n);
    }
    if says_whole(lc, "groups_input"@, n) {
        wholes_are_found(lc, "groups_input"@, n);
    }
    if leaves_open(lc, "groups_input"@) {
        open_names_are_no_fields(lc, "groups_input"@);
    }
    if says_whole(lc, "groups_input_mixin"@, n) {
        wholes_are_found(lc, "groups_input_mixin"@, n);
    }
    if leaves_open(lc, "groups_input_mixin"@) {
        open_names_are_no_fields(lc, "groups_input_mixin"@);
    }
}

/// The head of a stack is the object under `head`: its channels, taps, bias and
/// distance; the distance is one where it is left open.
pub proof fn stack_heads_are_read<S: Scalar>(lc: Tree, idx: int, head: Tree, n: usize, bias: bool)
    requires
        array_spec_of::<S>(lc, idx) is Ok,
        says(lc, "head"@, head),
        head is Object,
    ensures
        ({
            let a = array_spec_of::<S>(lc, idx)->Ok_0;
            &&& says_whole(head, "out_channels"@, n) ==> a.head_size == n
            &&& says_whole(head, "kernel_size"@, n) ==> a.head_kernel_size == n
            &&& says(head, "bias"@, Tree::Bool(bias)) ==> a.head_bias == bias
            &&& says_whole(head, "head_dilation"@, n) ==> a.head_dilation == n
            &&& leaves_open(head, "head_dilation"@) ==> a.head_dilation == 1
        }),
{
    names_are_found(lc, "head"@, head);
    if says_whole(head, "out_channels"@, n) {
        wholes_are_found(head, "out_channels"@, n);
    }
    if says_whole(head, "kernel_size"@, n) {
        wholes_are_found(head, "kernel_size"@, n);
    }
    if says(head, "bias"@, Tree::Bool(bias)) {
        names_are_found(head, "bias"@, Tree::Bool(bias));
    }
    if says_whole(head, "head_dilation"@, n) {
        wholes_are_found(head, "head_dilation"@, n);
    }
    if leaves_open(head, "head_dilation"@) {
        open_names_are_no_fields(head, "head_dilation"@);
    }
}

/// A stack without such an object has a head of one tap, with the channels under
/// `head_size` and the bias under `head_bias`.
pub proof fn legacy_heads_are_read<S: Scalar>(lc: Tree, idx: int, n: usize, bias: bool)
    requires
        array_spec_of::<S>(lc, idx) is Ok,
        leaves_open(lc, "head"@),
    ensures
        ({
            let a = array_spec_of::<S>(lc, idx)->Ok_0;
            &&& says_whole(lc, "head_size"@, n) ==> a.head_size == n
            &&& says(lc, "head_bias"@, Tree::Bool(bias)) ==> a.head_bias == bias
            &&& a.head_kernel_size == 1
            &&& a.head_dilation == 1
        }),
{
    open_names_are_no_fields(lc, "head"@);
    if says_whole(lc, "head_size"@, n) {
        wholes_are_found(lc, "head_size"@, n);
    }
    if says(lc, "head_bias"@, Tree::Bool(bias)) {
        names_are_found(lc, "head_bias"@, Tree::Bool(bias));
    }
}

/// The projection to the residual is there unless it is switched off under
/// `layer1x1`, and has one group unless others are given.
pub proof fn residual_projections_are_read<S: Scalar>(
    lc: Tree,
    idx: int,
    v: Tree,
    n: usize,
    active: bool,
)
    requires
        array_spec_of::<S>(lc, idx) is Ok,
    ensures
        ({
            let a = array_spec_of::<S>(lc, idx)->Ok_0;
            &&& leaves_open(lc, "layer1x1"@) ==> a.layer1x1_active && a.layer1x1_groups == 1
            &&& says(lc, "layer1x1"@, v) && v is Object ==> {
                &&& says(v, "active"@, Tree::Bool(active)) ==> a.layer1x1_active == active
                &&& lacks(v, "active"@) ==> a.layer1x1_active
                &&& says_whole(v, "groups"@, n) ==> a.layer1x1_groups == n
                &&& lacks(v, "groups"@) ==> a.layer1x1_groups == 1
            }
        }),
{
    if leaves_open(lc, "layer1x1"@) {
        open_names_are_no_fields(lc, "layer1x1"@);
    }
    if says(lc, "layer1x1"@, v) && v is Object {
        names_are_found(lc, "layer1x1"@, v);
        lemma_options(v, n, active);
    }
}

/// What an object says of a projection is found.
proof fn lemma_options(v: Tree, n: usize, active: bool)
    ensures
        says(v, "active"@, Tree::Bool(active)) ==> v.get("active"@) == Some(Tree::Bool(active)),
        lacks(v, "active"@) ==> v.get("active"@) is None,
        says_whole(v, "groups"@, n) ==> (v.get("groups"@) matches Some(x) && x.as_u64() == Some(
            n as u64,
        )),
        lacks(v, "groups"@) ==> v.get("groups"@) is None,
        says_whole(v, "out_channels"@, n) ==> (v.get("out_channels"@) matches Some(x)
            && x.as_u64() == Some(n as u64)),
        lacks(v, "out_channels"@) ==> v.get("out_channels"@) is None,
{
    if says(v, "active"@, Tree::Bool(active)) {
        names_are_found(v, "active"@, Tree::Bool(active));
    }
    if lacks(v, "active"@) {
        other_names_are_not_found(v, "active"@);
    }
    if says_whole(v, "groups"@, n) {
        wholes_are_found(v, "groups"@, n);
    }
    if lacks(v, "groups"@) {
        other_names_are_not_found(v, "groups"@);
    }
    if says_whole(v, "out_channels"@, n) {
        wholes_are_found(v, "out_channels"@, n);
    }
    if lacks(v, "out_channels"@) {
        other_names_are_not_found(v, "out_channels"@);
    }
}

/// The projection to the skip output is there where it is switched on under
/// `head1x1`; it has the channels of the layers and one group unless others are
/// given.
pub proof fn skip_projections_are_read<S: Scalar>(
    lc: Tree,
    idx: int,
    v: Tree,
    n: usize,
    active: bool,
)
    requires
        array_spec_of::<S>(lc, idx) is Ok,
    ensures
        ({
            let a = array_spec_of::<S>(lc, idx)->Ok_0;
            &&& leaves_open(lc, "head1x1"@) ==> !a.head1x1_active
            &&& says(lc, "head1x1"@, v) && v is Object ==> {
                &&& says(v, "active"@, Tree::Bool(active)) ==> a.head1x1_active == active
                &&& lacks(v, "active"@) ==> !a.head1x1_active
                &&& says_whole(v, "out_channels"@, n) ==> a.head1x1_out == n
                &&& lacks(v, "out_channels"@) ==> a.head1x1_out == a.channels
                &&& says_whole(v, "groups"@, n) ==> a.head1x1_groups == n
                &&& lacks(v, "groups"@) ==> a.head1x1_groups == 1
            }
        }),
{
    if leaves_open(lc, "head1x1"@) {
        open_names_are_no_fields(lc, "head1x1"@);
    }
    if says(lc, "head1x1"@, v) && v is Object {
        names_are_found(lc, "head1x1"@, v);
        lemma_options(v, n, active);
    }
}

// Lists with an entry for each layer =========================================

/// There are as many layers as dilations, and the taps of layer `i` are as far
/// apart as entry `i` says.
pub proof fn dilations_are_read_in_order<S: Scalar>(
    lc: Tree,
    idx: int,
    items: Seq<Tree>,
    i: int,
    n: usize,
)
    requires
        array_spec_of::<S>(lc, idx) is Ok,
        says(lc, "dilations"@, Tree::Array(items)),
        0 <= i < items.len(),
        is_whole(items[i], n),
    ensures
        array_spec_of::<S>(lc, idx)->Ok_0.dilations.len() == items.len(),
        array_spec_of::<S>(lc, idx)->Ok_0.dilations[i] == n,
{
    names_are_found(lc, "dilations"@, Tree::Array(items));
    lists_are_read_in_order(items, whole_reader("dilation"@), i);
}

/// Where `kernel_sizes` is a list, the taps of layer `i` are as many as entry `i`
/// says.
pub proof fn kernel_sizes_are_read_in_order<S: Scalar>(
    lc: Tree,
    idx: int,
    items: Seq<Tree>,
    i: int,
    n: usize,
)
    requires
        array_spec_of::<S>(lc, idx) is Ok,
        says(lc, "kernel_sizes"@, Tree::Array(items)),
        0 <= i < items.len(),
        is_whole(items[i], n),
    ensures
        array_spec_of::<S>(lc, idx)->Ok_0.dilations.len() == items.len(),
        array_spec_of::<S>(lc, idx)->Ok_0.kernel_sizes.len() == items.len(),
        array_spec_of::<S>(lc, idx)->Ok_0.kernel_sizes[i] == n,
{
    names_are_found(lc, "kernel_sizes"@, Tree::Array(items));
    lists_are_read_in_order(items, whole_reader("kernel_size"@), i);
}

/// A list of taps of the right length whose entries are whole numbers is no
/// reason to refuse a stack.
pub proof fn kernel_lists_are_accepted(lc: Tree, idx: int, items: Seq<Tree>, n: nat)
    requires
        says(lc, "kernel_sizes"@, Tree::Array(items)),
        items.len() == n,
        forall|i: int| 0 <= i < n ==> exists|k: usize| is_whole(#[trigger] items[i], k),
    ensures
        kernels_of(lc, idx, n) is Ok,
{
    names_are_found(lc, "kernel_sizes"@, Tree::Array(items));
    let f = whole_reader("kernel_size"@);
    assert forall|i: int| 0 <= i < items.len() implies (#[trigger] f(items[i], i)) is Ok by {
        let k = choose|k: usize| is_whole(items[i], k);
        assert(is_whole(items[i], k));
    }
    readable_lists_are_read(items, f);
}

/// Without such a list every layer has the taps under `kernel_size`.
pub proof fn one_kernel_size_is_for_all<S: Scalar>(lc: Tree, idx: int, i: int, n: usize)
    requires
        array_spec_of::<S>(lc, idx) is Ok,
        leaves_open(lc, "kernel_sizes"@),
        says_whole(lc, "kernel_size"@, n),
        0 <= i < array_spec_of::<S>(lc, idx)->Ok_0.dilations.len(),
    ensures
        array_spec_of::<S>(lc, idx)->Ok_0.kernel_sizes[i] == n,
{
    open_names_are_no_fields(lc, "kernel_sizes"@);
    wholes_are_found(lc, "kernel_size"@, n);
}

/// Where `activation` is a list, layer `i` has the activation of entry `i`.
pub proof fn activations_are_read_in_order<S: Scalar>(
    lc: Tree,
    idx: int,
    items: Seq<Tree>,
    i: int,
)
    requires
        array_spec_of::<S>(lc, idx) is Ok,
        says(lc, "activation"@, Tree::Array(items)),
        0 <= i < items.len(),
    ensures
        array_spec_of::<S>(lc, idx)->Ok_0.dilations.len() == items.len(),
        act_of::<S>(items[i]) == Ok::<Act<S>, Seq<char>>(
            array_spec_of::<S>(lc, idx)->Ok_0.activations[i],
        ),
{
    names_are_found(lc, "activation"@, Tree::Array(items));
    lists_are_read_in_order(items, act_reader::<S>(), i);
}

/// Otherwise every layer has the activation under `activation`.
pub proof fn one_activation_is_for_all<S: Scalar>(lc: Tree, idx: int, v: Tree, i: int)
    requires
        array_spec_of::<S>(lc, idx) is Ok,
        says(lc, "activation"@, v),
        !(v is Array),
        !(v is Null),
        0 <= i < array_spec_of::<S>(lc, idx)->Ok_0.dilations.len(),
    ensures
        act_of::<S>(v) == Ok::<Act<S>, Seq<char>>(
            array_spec_of::<S>(lc, idx)->Ok_0.activations[i],
        ),
{
    names_are_found(lc, "activation"@, v);
}

// Gating =====================================================================

/// A text names what the upper half of a layer does.
pub open spec fn names_mode(name: Seq<char>, mode: GatingMode) -> bool {
    match mode {
        GatingMode::Ungated => name == "none"@,
        GatingMode::Gated => name == "gated"@,
        GatingMode::Blended => name == "blended"@,
    }
}

/// The names of the modes differ.
pub proof fn lemma_modes_differ(name: Seq<char>, mode: GatingMode)
    requires
        names_mode(name, mode),
    ensures
        mode_named(name) == Ok::<GatingMode, Seq<char>>(mode),
{
    reveal_strlit("none");
    reveal_strlit("gated");
    reveal_strlit("blended");
    assert("none"@.len() == 4);
    assert("gated"@.len() == 5);
    assert("blended"@.len() == 7);
}

/// No other names of modes are accepted.
pub proof fn other_modes_are_refused<S: Scalar>(lc: Tree, idx: int, name: Seq<char>)
    requires
        array_spec_of::<S>(lc, idx) is Ok,
        says(lc, "gating_mode"@, Tree::Text(name)),
    ensures
        name == "none"@ || name == "gated"@ || name == "blended"@,
{
    names_are_found(lc, "gating_mode"@, Tree::Text(name));
}

/// What a stack says of the activation of the upper half of layer `i`: a list
/// says it by its entry, anything else for all layers; `None` where it says
/// nothing.
pub open spec fn says_secondary(lc: Tree, i: int, v: Option<Tree>) -> bool {
    match v {
        Some(t) => {
            ||| says(lc, "secondary_activation"@, t) && !(t is Array) && !(t is Null)
            ||| exists|items: Seq<Tree>| #[trigger]
                says(lc, "secondary_activation"@, Tree::Array(items)) && i < items.len()
                    && items[i] == t && !(t is Null)
        },
        None => {
            ||| leaves_open(lc, "secondary_activation"@)
            ||| exists|items: Seq<Tree>| #[trigger]
                says(lc, "secondary_activation"@, Tree::Array(items)) && (i >= items.len()
                    || items[i] is Null)
        },
    }
}

/// What is said of the activation of the upper half is found.
proof fn lemma_secondary(lc: Tree, i: int, v: Option<Tree>)
    requires
        says_secondary(lc, i, v),
        0 <= i,
    ensures
        secondary_at(lc.field("secondary_activation"@), i) == v,
{
    let name = "secondary_activation"@;
    match v {
        Some(t) => {
            if says(lc, name, t) && !(t is Array) && !(t is Null) {
                names_are_found(lc, name, t);
            } else {
                let items = choose|items: Seq<Tree>| #[trigger]
                    says(lc, name, Tree::Array(items)) && i < items.len() && items[i] == t && !(
                    t is Null);
                names_are_found(lc, name, Tree::Array(items));
            }
        },
        None => {
            if leaves_open(lc, name) {
                open_names_are_no_fields(lc, name);
            } else {
                let items = choose|items: Seq<Tree>| #[trigger]
                    says(lc, name, Tree::Array(items)) && (i >= items.len() || items[i] is Null);
                names_are_found(lc, name, Tree::Array(items));
            }
        },
    }
}

/// Layer `i` has the mode of entry `i` where `gating_mode` is a list. Where the
/// upper half does something, its activation is the one that the stack says of
/// layer `i`, or else the logistic function.
pub proof fn gates_are_read_in_order<S: Scalar>(
    lc: Tree,
    idx: int,
    items: Seq<Tree>,
    i: int,
    mode: GatingMode,
    name: Seq<char>,
    v: Option<Tree>,
)
    requires
        array_spec_of::<S>(lc, idx) is Ok,
        says(lc, "gating_mode"@, Tree::Array(items)),
        0 <= i < items.len(),
        items[i] == Tree::Text(name),
        names_mode(name, mode),
        says_secondary(lc, i, v),
    ensures
        ({
            let a = array_spec_of::<S>(lc, idx)->Ok_0;
            &&& a.dilations.len() == items.len()
            &&& a.gating_modes[i] == mode
            &&& mode != GatingMode::Ungated && v is Some ==> a.secondary_activations[i] is Some
                && act_of::<S>(v->0) == Ok::<Act<S>, Seq<char>>(a.secondary_activations[i]->0)
            &&& mode != GatingMode::Ungated && v is None ==> a.secondary_activations[i] == Some(
                Act::<S>::Sigmoid,
            )
        }),
{
    names_are_found(lc, "gating_mode"@, Tree::Array(items));
    lemma_modes_differ(name, mode);
    lemma_secondary(lc, i, v);
    lists_are_read_in_order(
        items,
        gate_reader::<S>(lc.field("secondary_activation"@), idx),
        i,
    );
}

/// Where `gating_mode` is a text, all layers have that mode. Where the upper half
/// does something, its activation is the one under `secondary_activation`, or
/// else the logistic function.
pub proof fn one_gate_is_for_all<S: Scalar>(
    lc: Tree,
    idx: int,
    i: int,
    mode: GatingMode,
    name: Seq<char>,
    v: Tree,
)
    requires
        array_spec_of::<S>(lc, idx) is Ok,
        says(lc, "gating_mode"@, Tree::Text(name)),
        names_mode(name, mode),
        0 <= i < array_spec_of::<S>(lc, idx)->Ok_0.dilations.len(),
    ensures
        ({
            let a = array_spec_of::<S>(lc, idx)->Ok_0;
            &&& a.gating_modes[i] == mode
            &&& mode != GatingMode::Ungated && says(lc, "secondary_activation"@, v) && !(v is Null)
                ==> a.secondary_activations[i] is Some && act_of::<S>(v) == Ok::<
                Act<S>,
                Seq<char>,
            >(a.secondary_activations[i]->0)
            &&& mode != GatingMode::Ungated && leaves_open(lc, "secondary_activation"@)
                ==> a.secondary_activations[i] == Some(Act::<S>::Sigmoid)
        }),
{
    names_are_found(lc, "gating_mode"@, Tree::Text(name));
    lemma_modes_differ(name, mode);
    if says(lc, "secondary_activation"@, v) {
        names_are_found(lc, "secondary_activation"@, v);
    }
    if leaves_open(lc, "secondary_activation"@) {
        open_names_are_no_fields(lc, "secondary_activation"@);
    }
}

/// Without a mode, `gated` decides for all layers whether the upper half gates
/// with the logistic function.
pub proof fn legacy_gates_are_read<S: Scalar>(lc: Tree, idx: int, i: int, gated: bool)
    requires
        array_spec_of::<S>(lc, idx) is Ok,
        leaves_open(lc, "gating_mode"@),
        says(lc, "gated"@, Tree::Bool(gated)) || (!gated && leaves_open(lc, "gated"@)),
        0 <= i < array_spec_of::<S>(lc, idx)->Ok_0.dilations.len(),
    ensures
        ({
            let a = array_spec_of::<S>(lc, idx)->Ok_0;
            &&& gated ==> a.gating_modes[i] == GatingMode::Gated && a.secondary_activations[i]
                == Some(Act::<S>::Sigmoid)
            &&& !gated ==> a.gating_modes[i] == GatingMode::Ungated
        }),
{
    open_names_are_no_fields(lc, "gating_mode"@);
    if says(lc, "gated"@, Tree::Bool(gated)) {
        names_are_found(lc, "gated"@, Tree::Bool(gated));
    } else {
        open_names_are_no_fields(lc, "gated"@);
    }
}

// Modulations ================================================================

/// The name of each place where a layer can be modulated, in the order of the
/// weights.
pub open spec fn names_place(name: Seq<char>, slot: int) -> bool {
    ||| slot == 0 && name == "conv_pre_film"@
    ||| slot == 1 && name == "conv_post_film"@
    ||| slot == 2 && name == "input_mixin_pre_film"@
    ||| slot == 3 && name == "input_mixin_post_film"@
    ||| slot == 4 && name == "activation_pre_film"@
    ||| slot == 5 && name == "activation_post_film"@
    ||| slot == 6 && name == "layer1x1_post_film"@
    ||| slot == 7 && name == "head1x1_post_film"@
}

/// The modulations are read place by place.
proof fn lemma_films_in_order(lc: Tree, idx: int, k: nat, slot: int)
    requires
        films_of(lc, idx, k) is Ok,
        0 <= slot < k,
    ensures
        films_of(lc, idx, k)->Ok_0.len() == k,
        film_of(lc, film_key(slot), idx) == Ok::<_, Seq<char>>(films_of(lc, idx, k)->Ok_0[slot]),
    decreases k,
{
    if k > 1 {
        lemma_films_in_order(
            lc,
            idx,
            (k - 1) as nat,
            if slot < k - 1 {
                slot
            } else {
                0
            },
        );
    } else {
        assert(films_of(lc, idx, 0)->Ok_0.len() == 0);
    }
}

/// A modulation is the object under the name of its place: on and shifting
/// unless it says otherwise, with one group unless others are given. Where the
/// name is left open or says `false` there is none.
pub proof fn modulations_are_read<S: Scalar>(
    lc: Tree,
    idx: int,
    slot: int,
    name: Seq<char>,
    v: Tree,
    flag: bool,
    n: usize,
)
    requires
        array_spec_of::<S>(lc, idx) is Ok,
        names_place(name, slot),
    ensures
        ({
            let p = array_spec_of::<S>(lc, idx)->Ok_0.films[slot];
            &&& leaves_open(lc, name) || says(lc, name, Tree::Bool(false)) ==> !p.active
            &&& says(lc, name, v) && v is Object ==> {
                &&& says(v, "active"@, Tree::Bool(flag)) ==> p.active == flag
                &&& lacks(v, "active"@) ==> p.active
                &&& says(v, "shift"@, Tree::Bool(flag)) ==> p.shift == flag
                &&& lacks(v, "shift"@) ==> p.shift
                &&& says_whole(v, "groups"@, n) ==> p.groups == n
                &&& leaves_open(v, "groups"@) ==> p.groups == 1
            }
        }),
{
    lemma_films_in_order(lc, idx, 8, slot);
    if leaves_open(lc, name) {
        open_names_are_no_fields(lc, name);
    }
    if says(lc, name, Tree::Bool(false)) {
        names_are_found(lc, name, Tree::Bool(false));
    }
    if says(lc, name, v) && v is Object {
        names_are_found(lc, name, v);
        lemma_options(v, n, flag);
        if says(v, "shift"@, Tree::Bool(flag)) {
            names_are_found(v, "shift"@, Tree::Bool(flag));
        }
        if lacks(v, "shift"@) {
            other_names_are_not_found(v, "shift"@);
        }
        if says_whole(v, "groups"@, n) {
            wholes_are_found(v, "groups"@, n);
        }
        if leaves_open(v, "groups"@) {
            open_names_are_no_fields(v, "groups"@);
        }
    }
}

// Networks ===================================================================

/// Stack `i` of a network is the document of entry `i` of its list.
pub proof fn stacks_are_read_in_order<S: Scalar>(config: Tree, items: Seq<Tree>, i: int)
    requires
        says(config, "layers"@, Tree::Array(items)),
        specs_of::<S>(config) is Ok,
        0 <= i < items.len(),
    ensures
        specs_of::<S>(config)->Ok_0.len() == items.len(),
        array_spec_of::<S>(items[i], i) == Ok::<ArraySpec<S>, Seq<char>>(
            specs_of::<S>(config)->Ok_0[i],
        ),
{
    names_are_found(config, "layers"@, Tree::Array(items));
    lists_are_read_in_order(items, array_reader::<S>(), i);
}

} // verus!
