//! A network that can be reduced to fewer channels.

use crate::json::{Json, Tree};
use crate::laws::sizes::every_ratio_can_be_selected;
use crate::num::{lawful, Sample, Scalar};
use crate::pure::array_config::{
    array_spec_wf, head_rows, lemma_collected_len, read_defaulted, ArraySpec, LayerArraySpec,
};
use crate::pure::assemble::{array_error, array_plan};
use crate::pure::net::{condition_model, NetModel, WaveNet};
use crate::pure::net_build::{build, net_of, specs, specs_wf, stacks_error};
use crate::pure::net_config::{
    array_reader, check_scale, condition_of, has_scale, inputs_of, parse_condition_dsp_value,
    parse_layer_array_specs, specs_of,
};
use crate::pure::nn::{oversize_message, oversize_text, product_fits};
use crate::pure::slim_config::{
    allowed_of, allowed_wf, check_slims, lemma_slims_each, lists, read_all_allowed, slim_error,
    slims_error,
};
use crate::pure::slim_weights::{can_cut, extract_slimmed_weights, resized, slimmed_weights};
use crate::text::{decimal, push_decimal, with_number};
use vstd::prelude::*;
use vstd::string::*;

verus! {

// Sizes ======================================================================

/// What a network that can be reduced is made of.
pub struct SlimModel<S> {
    /// The stacks at full size.
    pub arrays: Seq<ArraySpec<S>>,
    /// The sizes of each stack; none where it cannot be reduced.
    pub allowed: Seq<Seq<usize>>,
    /// Channels read.
    pub inputs: usize,
    /// The configuration of the network that makes the condition.
    pub condition: Option<Tree>,
    /// The weights at full size.
    pub weights: Seq<S>,
}

/// Which of `len` sizes a ratio selects.
pub open spec fn step_index<D: Sample>(val: D, len: nat) -> int {
    let k = val.step_of_spec(len as usize) as int;
    if k < 0 {
        0
    } else if k >= len {
        len - 1
    } else {
        k
    }
}

/// The channels of each stack that a ratio selects.
pub open spec fn channels_for<S: Scalar>(m: SlimModel<S>, val: S::Wide) -> Seq<usize> {
    Seq::new(
        m.arrays.len(),
        |i: int|
            if m.allowed[i].len() == 0 {
                m.arrays[i].channels
            } else {
                m.allowed[i][step_index(val, m.allowed[i].len())]
            },
    )
}

/// The channels of each stack at full size.
pub open spec fn full_channels<S>(arrays: Seq<ArraySpec<S>>) -> Seq<usize> {
    Seq::new(arrays.len(), |i: int| arrays[i].channels)
}

/// The channels after the activations of a stack with `t` channels.
pub open spec fn bottleneck_for<S>(a: ArraySpec<S>, t: nat) -> nat {
    if !a.layer1x1_active {
        t
    } else {
        let share = (a.bottleneck * t) as nat / a.channels as nat;
        if share < 1 {
            1
        } else {
            share
        }
    }
}

/// The channels after the activations can be computed.
pub open spec fn bottleneck_sound<S>(a: ArraySpec<S>, t: nat) -> bool {
    a.layer1x1_active ==> a.channels != 0 && a.bottleneck * t <= usize::MAX
}

/// The channels after the activations can be computed for all stacks.
pub open spec fn slim_sound<S>(arrays: Seq<ArraySpec<S>>, targets: Seq<usize>) -> bool {
    forall|i: int|
        0 <= i < arrays.len() ==> bottleneck_sound(#[trigger] arrays[i], targets[i] as nat)
}

/// Stack `i` with the channels of `targets`.
pub open spec fn slim_spec<S>(arrays: Seq<ArraySpec<S>>, targets: Seq<usize>, i: int) -> ArraySpec<
    S,
> {
    ArraySpec {
        channels: targets[i],
        bottleneck: bottleneck_for(arrays[i], targets[i] as nat) as usize,
        input_size: if i > 0 {
            targets[i - 1]
        } else {
            arrays[i].input_size
        },
        head_size: if i < arrays.len() - 1 {
            targets[i + 1]
        } else {
            arrays[i].head_size
        },
        ..arrays[i]
    }
}

/// All stacks with the channels of `targets`.
pub open spec fn slim_specs<S>(arrays: Seq<ArraySpec<S>>, targets: Seq<usize>) -> Seq<
    ArraySpec<S>,
> {
    Seq::new(arrays.len(), |i: int| slim_spec(arrays, targets, i))
}

/// Some stack has lists of sizes to choose from.
pub open spec fn has_choice(allowed: Seq<Seq<usize>>) -> bool {
    exists|i: int| 0 <= i < allowed.len() && (#[trigger] allowed[i]).len() > 1
}

/// Some list of sizes has more than `len` entries.
pub open spec fn has_longer(allowed: Seq<Seq<usize>>, len: nat) -> bool {
    exists|i: int| 0 <= i < allowed.len() && (#[trigger] allowed[i]).len() > len
}

/// The channels that stack `i` can have in a reduced network. A shorter list
/// reaches its end before a longer one: a stack is at the end of its list while
/// the network is reduced only where another list is longer.
pub open spec fn reduced_counts<S>(
    arrays: Seq<ArraySpec<S>>,
    allowed: Seq<Seq<usize>>,
    i: int,
) -> Seq<usize> {
    if allowed[i].len() == 0 {
        seq![arrays[i].channels]
    } else if has_longer(allowed, allowed[i].len()) {
        allowed[i]
    } else {
        allowed[i].drop_last()
    }
}

/// The lists that offer a choice have the same length, so that they move in
/// step.
pub open spec fn even_lists(allowed: Seq<Seq<usize>>) -> bool {
    forall|i: int, j: int|
        0 <= i < allowed.len() && 0 <= j < allowed.len() && (#[trigger] allowed[i]).len() > 1 && (
        #[trigger] allowed[j]).len() > 1 ==> allowed[i].len() == allowed[j].len()
}

/// The most entries of a list for which [`ends_in_order`] is said.
pub const MOST_SIZES: usize = 0x10_0000;

/// What ratios of a number type do as real numbers do: one that reaches the last
/// of many equal steps reaches the last of fewer steps.
pub open spec fn ends_in_order<D: Sample>() -> bool {
    forall|a: D, few: usize, many: usize|
        0 < few <= many <= MOST_SIZES && #[trigger] a.step_of_spec(many) >= many - 1
            ==> #[trigger] a.step_of_spec(few) >= few - 1
}

/// A shorter list reaches its end no later than a longer one: the lists move in
/// step, or they are not too long and ratios do as real numbers do.
pub open spec fn sizes_in_order<S: Scalar>(m: SlimModel<S>) -> bool {
    ||| even_lists(m.allowed)
    ||| {
        &&& ends_in_order::<S::Wide>()
        &&& forall|i: int| 0 <= i < m.allowed.len() ==> (#[trigger] m.allowed[i]).len()
            <= MOST_SIZES
    }
}

/// Stack `i` can have `t` channels in a reduced network: its layers and its head
/// have the weights, it adds to as many channels as the stack before leaves, and
/// the next stack has weights for what it is given.
pub open spec fn count_fits<S>(arrays: Seq<ArraySpec<S>>, i: int, t: usize) -> bool {
    &&& bottleneck_sound(arrays[i], t as nat)
    &&& arrays[i].dilations.len() > 0 ==> bottleneck_for(arrays[i], t as nat)
        <= arrays[i].bottleneck
    &&& rows_for(arrays[i], t as nat) <= head_rows(arrays[i])
    &&& i > 0 ==> t == rows_for(arrays[i], t as nat)
    &&& i + 1 < arrays.len() ==> t <= arrays[i + 1].input_size
}

/// Channels that a stack with `t` channels adds to.
pub open spec fn rows_for<S>(a: ArraySpec<S>, t: nat) -> nat {
    if a.head1x1_active {
        a.head1x1_out as nat
    } else {
        bottleneck_for(a, t)
    }
}

/// The complaint about a stack that cannot have `t` channels.
pub open spec fn size_text(i: nat, t: nat) -> Seq<char> {
    "SlimmableWavenet: layer array "@ + decimal(i) + " cannot be built with "@ + decimal(t)
        + " channels"@
}

/// Why one of the first `k` of these counts does not fit stack `i`, where one
/// does not.
pub open spec fn counts_error<S>(
    arrays: Seq<ArraySpec<S>>,
    counts: Seq<usize>,
    i: int,
    k: nat,
) -> Option<Seq<char>>
    decreases k,
{
    if k == 0 {
        None
    } else {
        match counts_error(arrays, counts, i, (k - 1) as nat) {
            Some(e) => Some(e),
            None => if count_fits(arrays, i, counts[k - 1]) {
                None
            } else {
                Some(size_text(i as nat, counts[k - 1] as nat))
            },
        }
    }
}

/// Why one of the first `n` stacks cannot have a size that can be selected,
/// where one cannot.
pub open spec fn stacks_sizes_error<S>(
    arrays: Seq<ArraySpec<S>>,
    allowed: Seq<Seq<usize>>,
    n: nat,
) -> Option<Seq<char>>
    decreases n,
{
    if n == 0 {
        None
    } else {
        match stacks_sizes_error(arrays, allowed, (n - 1) as nat) {
            Some(e) => Some(e),
            None => {
                let counts = reduced_counts(arrays, allowed, n - 1);
                counts_error(arrays, counts, n - 1, counts.len())
            },
        }
    }
}

/// Why a reduced network cannot be built, where one cannot.
pub open spec fn sizes_error<S>(arrays: Seq<ArraySpec<S>>, allowed: Seq<Seq<usize>>) -> Option<
    Seq<char>,
> {
    if has_choice(allowed) {
        stacks_sizes_error(arrays, allowed, arrays.len())
    } else {
        None
    }
}

/// The network that makes the condition, where there is one.
pub open spec fn slim_condition<S: Scalar>(condition: Option<Tree>) -> Result<
    Option<NetModel<S>>,
    Seq<char>,
> {
    match condition {
        None => Ok(None),
        Some(cd) => match condition_of::<S>(cd) {
            Ok(m) => Ok(Some(m)),
            Err(e) => Err(e),
        },
    }
}

/// The network with the channels of `targets`.
pub open spec fn slim_net<S: Scalar>(m: SlimModel<S>, targets: Seq<usize>) -> Result<
    NetModel<S>,
    Seq<char>,
> {
    match slim_condition::<S>(m.condition) {
        Err(e) => Err(e),
        Ok(condition) => if targets == full_channels(m.arrays) {
            net_of(m.inputs as nat, m.arrays, None, condition, m.weights)
        } else if !slim_sound(m.arrays, targets) {
            Err(oversize_text())
        } else {
            let slim = slim_specs(m.arrays, targets);
            match slimmed_weights(m.arrays, slim, m.weights) {
                Err(e) => Err(e),
                Ok(weights) => net_of(m.inputs as nat, slim, None, condition, weights),
            }
        },
    }
}

/// A network that can be reduced.
pub struct SlimmableWaveNet<S> {
    /// The stacks at full size.
    pub specs: Vec<LayerArraySpec<S>>,
    /// The sizes of each stack; none where it cannot be reduced.
    pub allowed: Vec<Vec<usize>>,
    /// Channels read.
    pub in_channels: usize,
    /// The configuration of the network that makes the condition.
    pub condition_json: Option<Json>,
    /// The weights at full size.
    pub full_weights: Vec<S>,
    /// The network at its current size.
    pub current: WaveNet<S>,
    /// The channels of each stack at the current size.
    pub current_channels: Vec<usize>,
}

/// The content of an optional document.
pub open spec fn optional_tree(j: Option<Json>) -> Option<Tree> {
    match j {
        Some(v) => Some(v@),
        None => None,
    }
}

impl<S: Scalar> SlimmableWaveNet<S> {
    /// What this network is made of.
    pub open spec fn model(&self) -> SlimModel<S> {
        SlimModel {
            arrays: specs(self.specs@),
            allowed: lists(self.allowed@),
            inputs: self.in_channels,
            condition: optional_tree(self.condition_json),
            weights: self.full_weights@,
        }
    }

    /// The configuration is sound, the full network can be built, and the
    /// current network is the one with the current channels.
    pub open spec fn wf(&self) -> bool {
        &&& slim_model_wf(self.model())
        &&& specs_wf(self.specs@)
        &&& self.current_channels@.len() == self.specs@.len()
        &&& self.current.built()
        &&& slim_net(self.model(), self.current_channels@) == Ok::<NetModel<S>, Seq<char>>(
            self.current.model(),
        )
    }
}

/// The configuration is sound, and the full network can be built.
pub open spec fn slim_base_wf<S: Scalar>(m: SlimModel<S>) -> bool {
    &&& m.arrays.len() > 0
    &&& m.allowed.len() == m.arrays.len()
    &&& forall|i: int|
        0 <= i < m.allowed.len() ==> allowed_wf(#[trigger] m.allowed[i], m.arrays[i].channels)
    &&& slims_error(m.arrays, m.arrays.len()) is None
    &&& slim_net(m, full_channels(m.arrays)) is Ok
}

/// The configuration is sound, the full network can be built, and every count
/// that a reduced network can have fits.
pub open spec fn slim_model_wf<S: Scalar>(m: SlimModel<S>) -> bool {
    &&& slim_base_wf(m)
    &&& sizes_error(m.arrays, m.allowed) is None
}

/// Where all stacks can be made, each can.
pub proof fn lemma_stacks_each<S>(arrays: Seq<ArraySpec<S>>, n: nat, k: int)
    requires
        0 <= k < n,
        stacks_error(arrays, n) is None,
    ensures
        array_error(array_plan(arrays[k])) is None,
    decreases n,
{
    if k < n - 1 {
        lemma_stacks_each(arrays, (n - 1) as nat, k);
    }
}

/// The stacks of a sound configuration can be cut.
pub proof fn lemma_can_cut<S: Scalar>(m: SlimModel<S>)
    requires
        slim_model_wf(m),
        forall|i: int| 0 <= i < m.arrays.len() ==> array_spec_wf(#[trigger] m.arrays[i]),
    ensures
        can_cut(m.arrays),
{
    assert forall|i: int| 0 <= i < m.arrays.len() implies {
        &&& array_spec_wf(#[trigger] m.arrays[i])
        &&& slim_error(m.arrays[i]) is None
        &&& array_error(array_plan(m.arrays[i])) is None
    } by {
        lemma_slims_each(m.arrays, m.arrays.len(), i);
        lemma_stacks_each(m.arrays, m.arrays.len(), i);
    }
}

/// The channels after the activations of a stack with `new_channels` channels.
fn slim_bottleneck<S: Scalar>(spec: &LayerArraySpec<S>, new_channels: usize) -> (r: usize)
    requires
        bottleneck_sound(spec.model(), new_channels as nat),
    ensures
        r == bottleneck_for(spec.model(), new_channels as nat),
{
    if !spec.layer1x1_active {
        new_channels
    } else {
        let share = spec.bottleneck * new_channels / spec.channels;
        if share < 1 {
            1
        } else {
            share
        }
    }
}

/// All stacks with the channels of `targets`.
fn slim_specs_for_channels<S: Scalar>(list: &Vec<LayerArraySpec<S>>, targets: &Vec<usize>) -> (r: Vec<
    LayerArraySpec<S>,
>)
    requires
        targets@.len() == list@.len(),
        slim_sound(specs(list@), targets@),
    ensures
        specs(r@) == slim_specs(specs(list@), targets@),
{
    let ghost arrays = specs(list@);
    let n = list.len();
    let mut out: Vec<LayerArraySpec<S>> = Vec::new();
    let mut i: usize = 0;
    while i < n
        invariant
            i <= n,
            n == list@.len(),
            arrays == specs(list@),
            targets@.len() == n,
            slim_sound(arrays, targets@),
            out@.len() == i,
            forall|j: int|
                0 <= j < i ==> (#[trigger] out@[j]).model() == slim_spec(arrays, targets@, j),
        decreases n - i,
    {
        assert(arrays[i as int] == list@[i as int].model());
        assert(bottleneck_sound(arrays[i as int], targets@[i as int] as nat));
        let mut s = list[i].duplicate();
        s.channels = targets[i];
        s.bottleneck = slim_bottleneck(&list[i], targets[i]);
        if i > 0 {
            s.input_size = targets[i - 1];
        }
        if i < n - 1 {
            s.head_size = targets[i + 1];
        }
        out.push(s);
        i += 1;
    }
    assert(specs(out@) =~= slim_specs(arrays, targets@));
    out
}

fn count_ok<S: Scalar>(list: &Vec<LayerArraySpec<S>>, i: usize, t: usize) -> (r: bool)
    requires
        i < list@.len(),
    ensures
        r == count_fits(specs(list@), i as int, t),
{
    let ghost arrays = specs(list@);
    assert(arrays[i as int] == list@[i as int].model());
    if list[i].layer1x1_active && (list[i].channels == 0 || !product_fits(
        list[i].bottleneck,
        t,
    )) {
        return false;
    }
    let b = slim_bottleneck(&list[i], t);
    if b > list[i].bottleneck && (list[i].dilations.len() > 0 || !list[i].head1x1_active) {
        return false;
    }
    let rows = if list[i].head1x1_active {
        list[i].head1x1_out
    } else {
        b
    };
    if i > 0 && t != rows {
        return false;
    }
    if i < list.len() - 1 {
        assert(arrays[i + 1] == list@[i + 1].model());
        if t > list[i + 1].input_size {
            return false;
        }
    }
    true
}

fn check_choice(allowed: &Vec<Vec<usize>>) -> (r: bool)
    ensures
        r == has_choice(lists(allowed@)),
{
    let mut i: usize = 0;
    while i < allowed.len()
        invariant
            i <= allowed@.len(),
            forall|j: int| 0 <= j < i ==> (#[trigger] lists(allowed@)[j]).len() <= 1,
        decreases allowed@.len() - i,
    {
        assert(lists(allowed@)[i as int] == allowed@[i as int]@);
        if allowed[i].len() > 1 {
            return true;
        }
        i += 1;
    }
    false
}

fn check_longer(allowed: &Vec<Vec<usize>>, len: usize) -> (r: bool)
    ensures
        r == has_longer(lists(allowed@), len as nat),
{
    let mut i: usize = 0;
    while i < allowed.len()
        invariant
            i <= allowed@.len(),
            forall|j: int| 0 <= j < i ==> (#[trigger] lists(allowed@)[j]).len() <= len,
        decreases allowed@.len() - i,
    {
        assert(lists(allowed@)[i as int] == allowed@[i as int]@);
        if allowed[i].len() > len {
            return true;
        }
        i += 1;
    }
    false
}

fn size_message(i: usize, t: usize) -> (r: String)
    ensures
        r@ == size_text(i as nat, t as nat),
{
    let mut e = with_number("SlimmableWavenet: layer array ", i, " cannot be built with ");
    push_decimal(&mut e, t);
    e.append(" channels");
    e
}

/// The counts after one that does not fit do not matter.
proof fn lemma_counts_stop<S>(
    arrays: Seq<ArraySpec<S>>,
    counts: Seq<usize>,
    i: int,
    j: nat,
    k: nat,
)
    requires
        j <= k,
        counts_error(arrays, counts, i, j) is Some,
    ensures
        counts_error(arrays, counts, i, k) == counts_error(arrays, counts, i, j),
    decreases k - j,
{
    if j < k {
        lemma_counts_stop(arrays, counts, i, j, (k - 1) as nat);
    }
}

/// The stacks after one that does not fit do not matter.
proof fn lemma_sizes_stop<S>(
    arrays: Seq<ArraySpec<S>>,
    allowed: Seq<Seq<usize>>,
    j: nat,
    k: nat,
)
    requires
        j <= k,
        stacks_sizes_error(arrays, allowed, j) is Some,
    ensures
        stacks_sizes_error(arrays, allowed, k) == stacks_sizes_error(arrays, allowed, j),
    decreases k - j,
{
    if j < k {
        lemma_sizes_stop(arrays, allowed, j, (k - 1) as nat);
    }
}

/// Where no count is refused, each fits.
pub proof fn lemma_counts_each<S>(
    arrays: Seq<ArraySpec<S>>,
    counts: Seq<usize>,
    i: int,
    k: nat,
    j: int,
)
    requires
        0 <= j < k,
        counts_error(arrays, counts, i, k) is None,
    ensures
        count_fits(arrays, i, counts[j]),
    decreases k,
{
    if j < k - 1 {
        lemma_counts_each(arrays, counts, i, (k - 1) as nat, j);
    }
}

/// Where no stack is refused, each has the sizes that can be selected.
pub proof fn lemma_sizes_each<S>(
    arrays: Seq<ArraySpec<S>>,
    allowed: Seq<Seq<usize>>,
    n: nat,
    i: int,
)
    requires
        0 <= i < n,
        stacks_sizes_error(arrays, allowed, n) is None,
    ensures
        ({
            let counts = reduced_counts(arrays, allowed, i);
            counts_error(arrays, counts, i, counts.len()) is None
        }),
    decreases n,
{
    if i < n - 1 {
        lemma_sizes_each(arrays, allowed, (n - 1) as nat, i);
    }
}

/// Check the first `n` counts of a list for stack `i`.
fn check_counts<S: Scalar>(
    list: &Vec<LayerArraySpec<S>>,
    counts: &Vec<usize>,
    i: usize,
    n: usize,
) -> (r: Result<(), String>)
    requires
        i < list@.len(),
        n <= counts@.len(),
    ensures
        ({
            let error = counts_error(
                specs(list@),
                counts@.take(n as int),
                i as int,
                n as nat,
            );
            match r {
                Ok(()) => error is None,
                Err(e) => error == Some(e@),
            }
        }),
{
    let ghost arrays = specs(list@);
    let ghost some = counts@.take(n as int);
    let mut k: usize = 0;
    while k < n
        invariant
            k <= n,
            n <= counts@.len(),
            i < list@.len(),
            arrays == specs(list@),
            some == counts@.take(n as int),
            counts_error(arrays, some, i as int, k as nat) is None,
        decreases n - k,
    {
        assert(some[k as int] == counts@[k as int]);
        if !count_ok(list, i, counts[k]) {
            proof {
                lemma_counts_stop(arrays, some, i as int, (k + 1) as nat, n as nat);
            }
            return Err(size_message(i, counts[k]));
        }
        k += 1;
    }
    Ok(())
}

/// Check that every size that can be selected can be built.
fn check_sizes<S: Scalar>(list: &Vec<LayerArraySpec<S>>, allowed: &Vec<Vec<usize>>) -> (r: Result<
    (),
    String,
>)
    requires
        allowed@.len() == list@.len(),
    ensures
        match r {
            Ok(()) => sizes_error(specs(list@), lists(allowed@)) is None,
            Err(e) => sizes_error(specs(list@), lists(allowed@)) == Some(e@),
        },
{
    let ghost arrays = specs(list@);
    let ghost all = lists(allowed@);
    if !check_choice(allowed) {
        return Ok(());
    }
    let mut i: usize = 0;
    while i < list.len()
        invariant
            i <= list@.len(),
            allowed@.len() == list@.len(),
            arrays == specs(list@),
            all == lists(allowed@),
            has_choice(all),
            stacks_sizes_error(arrays, all, i as nat) is None,
        decreases list@.len() - i,
    {
        assert(arrays[i as int] == list@[i as int].model());
        assert(all[i as int] == allowed@[i as int]@);
        let ghost counts = reduced_counts(arrays, all, i as int);
        let len = allowed[i].len();
        let checked = if len == 0 {
            let own = vec![list[i].channels];
            assert(own@.take(1) =~= counts);
            check_counts(list, &own, i, 1)
        } else if check_longer(allowed, len) {
            assert(allowed@[i as int]@.take(len as int) =~= counts);
            check_counts(list, &allowed[i], i, len)
        } else {
            assert(allowed@[i as int]@.take(len - 1) =~= counts);
            check_counts(list, &allowed[i], i, len - 1)
        };
        if let Err(e) = checked {
            proof {
                lemma_sizes_stop(arrays, all, (i + 1) as nat, list@.len());
            }
            return Err(e);
        }
        i += 1;
    }
    Ok(())
}

fn check_sound<S: Scalar>(list: &Vec<LayerArraySpec<S>>, targets: &Vec<usize>) -> (r: bool)
    requires
        targets@.len() == list@.len(),
    ensures
        r == slim_sound(specs(list@), targets@),
{
    let ghost arrays = specs(list@);
    let mut i: usize = 0;
    while i < list.len()
        invariant
            i <= list@.len(),
            arrays == specs(list@),
            targets@.len() == list@.len(),
            forall|j: int|
                0 <= j < i ==> bottleneck_sound(#[trigger] arrays[j], targets@[j] as nat),
        decreases list@.len() - i,
    {
        assert(arrays[i as int] == list@[i as int].model());
        if list[i].layer1x1_active && (list[i].channels == 0 || !product_fits(
            list[i].bottleneck,
            targets[i],
        )) {
            assert(!bottleneck_sound(arrays[i as int], targets@[i as int] as nat));
            return false;
        }
        i += 1;
    }
    true
}

/// Whether two lists are the same.
pub(crate) fn same_list(a: &Vec<usize>, b: &Vec<usize>) -> (r: bool)
    ensures
        r == (a@ == b@),
{
    if a.len() != b.len() {
        return false;
    }
    let mut i: usize = 0;
    while i < a.len()
        invariant
            i <= a@.len(),
            a@.len() == b@.len(),
            forall|j: int| 0 <= j < i ==> a@[j] == b@[j],
        decreases a@.len() - i,
    {
        if a[i] != b[i] {
            return false;
        }
        i += 1;
    }
    assert(a@ =~= b@);
    true
}

fn channels_of<S: Scalar>(list: &Vec<LayerArraySpec<S>>) -> (r: Vec<usize>)
    ensures
        r@ == full_channels(specs(list@)),
{
    let mut out: Vec<usize> = Vec::new();
    let mut i: usize = 0;
    while i < list.len()
        invariant
            i <= list@.len(),
            out@.len() == i,
            forall|j: int| 0 <= j < i ==> #[trigger] out@[j] == list@[j].channels,
        decreases list@.len() - i,
    {
        out.push(list[i].channels);
        i += 1;
    }
    assert(out@ =~= full_channels(specs(list@)));
    out
}

fn parse_slim_condition<S: Scalar>(condition: &Option<Json>) -> (r: Result<
    Option<Box<WaveNet<S>>>,
    String,
>)
    requires
        lawful::<S>(),
    ensures
        match r {
            Ok(net) => {
                &&& net matches Some(n) ==> n.built()
                &&& slim_condition::<S>(optional_tree(*condition)) == Ok::<
                    Option<NetModel<S>>,
                    Seq<char>,
                >(condition_model(net))
            },
            Err(e) => slim_condition::<S>(optional_tree(*condition)) == Err::<
                Option<NetModel<S>>,
                Seq<char>,
            >(e@),
        },
{
    match condition {
        None => Ok(None),
        Some(cd) => match parse_condition_dsp_value(cd) {
            Ok(net) => Ok(Some(net)),
            Err(e) => Err(e),
        },
    }
}

impl<S: Scalar> SlimmableWaveNet<S> {
    /// The channels of each stack that a ratio selects.
    pub fn channels_for_size(&self, val: S::Wide) -> (r: Vec<usize>)
        requires
            lawful::<S>(),
            self.wf(),
        ensures
            r@ == channels_for(self.model(), val),
    {
        let ghost m = self.model();
        let mut out: Vec<usize> = Vec::new();
        let mut i: usize = 0;
        while i < self.specs.len()
            invariant
                lawful::<S>(),
                m == self.model(),
                m.allowed.len() == m.arrays.len(),
                i <= self.specs@.len(),
                out@.len() == i,
                forall|j: int| 0 <= j < i ==> #[trigger] out@[j] == channels_for(m, val)[j],
            decreases self.specs@.len() - i,
        {
            assert(m.arrays[i as int] == self.specs@[i as int].model());
            assert(m.allowed[i as int] == self.allowed@[i as int]@);
            let len = self.allowed[i].len();
            if len == 0 {
                out.push(self.specs[i].channels);
            } else {
                let k = val.step_of(len);
                let idx = if k < 0 {
                    0
                } else if k as usize >= len {
                    len - 1
                } else {
                    k as usize
                };
                out.push(self.allowed[i][idx]);
            }
            i += 1;
        }
        assert(out@ =~= channels_for(m, val));
        out
    }

    /// The network with the channels of `targets`.
    pub fn build_size(&self, targets: &Vec<usize>) -> (r: Result<WaveNet<S>, String>)
        requires
            lawful::<S>(),
            self.wf(),
            targets@.len() == self.specs@.len(),
        ensures
            match r {
                Ok(net) => net.built() && slim_net(self.model(), targets@) == Ok::<
                    NetModel<S>,
                    Seq<char>,
                >(net.model()),
                Err(e) => slim_net(self.model(), targets@) == Err::<NetModel<S>, Seq<char>>(e@),
            },
    {
        let ghost m = self.model();
        let condition_dsp = match parse_slim_condition::<S>(&self.condition_json) {
            Ok(c) => c,
            Err(e) => {
                return Err(e);
            },
        };
        let full = channels_of(&self.specs);
        if same_list(targets, &full) {
            return build(
                self.in_channels,
                &self.specs,
                None,
                condition_dsp,
                self.full_weights.as_slice(),
            );
        }
        if !check_sound(&self.specs, targets) {
            return Err(oversize_message());
        }
        let slim_list = slim_specs_for_channels(&self.specs, targets);
        let ghost slim = slim_specs(m.arrays, targets@);
        proof {
            assert forall|i: int| 0 <= i < m.arrays.len() implies array_spec_wf(
                #[trigger] m.arrays[i],
            ) by {
                assert(m.arrays[i] == self.specs@[i].model());
            }
            lemma_can_cut(m);
            assert forall|i: int| 0 <= i < m.arrays.len() implies resized(
                m.arrays[i],
                #[trigger] slim[i],
            ) by {}
            lemma_slim_wf(slim_list@, m.arrays, targets@);
        }
        let weights = match extract_slimmed_weights(
            &self.specs,
            &slim_list,
            self.full_weights.as_slice(),
        ) {
            Ok(w) => w,
            Err(e) => {
                return Err(e);
            },
        };
        build(self.in_channels, &slim_list, None, condition_dsp, weights.as_slice())
    }

    /// Select the size of the network. Says whether the network changed, in
    /// which case it has to be reset before it is used. The sizes were checked
    /// when the network was loaded, so selecting one does not fail where the
    /// lists of sizes end in order.
    pub fn set_slimmable_size(&mut self, val: S::Wide) -> (r: Result<bool, String>)
        requires
            lawful::<S>(),
            old(self).wf(),
        ensures
            final(self).wf(),
            final(self).model() == old(self).model(),
            ({
                let targets = channels_for(old(self).model(), val);
                if targets == old(self).current_channels@ {
                    r == Ok::<bool, String>(false) && *final(self) == *old(self)
                } else {
                    match slim_net(old(self).model(), targets) {
                        Ok(net) => {
                            &&& r == Ok::<bool, String>(true)
                            &&& final(self).current_channels@ == targets
                            &&& final(self).current.model() == net
                        },
                        Err(e) => (r matches Err(s) && s@ == e) && *final(self) == *old(self),
                    }
                }
            }),
            sizes_in_order(old(self).model()) ==> r is Ok,
    {
        let targets = self.channels_for_size(val);
        if same_list(&targets, &self.current_channels) {
            return Ok(false);
        }
        proof {
            if sizes_in_order(self.model()) {
                self.lemma_size_can_be_built(val);
            }
        }
        match self.build_size(&targets) {
            Ok(net) => {
                self.current = net;
                self.current_channels = targets;
                Ok(true)
            },
            Err(e) => Err(e),
        }
    }
}

impl<S: Scalar> SlimmableWaveNet<S> {
    /// The network that a ratio selects can be built.
    pub proof fn lemma_size_can_be_built(&self, val: S::Wide)
        requires
            self.wf(),
            sizes_in_order(self.model()),
        ensures
            slim_net(self.model(), channels_for(self.model(), val)) is Ok,
    {
        let m = self.model();
        assert forall|i: int| 0 <= i < m.arrays.len() implies array_spec_wf(
            #[trigger] m.arrays[i],
        ) by {
            assert(m.arrays[i] == self.specs@[i].model());
        }
        every_ratio_can_be_selected(m, val);
    }
}

/// A reduced configuration is sound.
proof fn lemma_slim_wf<S: Scalar>(
    list: Seq<LayerArraySpec<S>>,
    arrays: Seq<ArraySpec<S>>,
    targets: Seq<usize>,
)
    requires
        specs(list) == slim_specs(arrays, targets),
        forall|i: int| 0 <= i < arrays.len() ==> array_spec_wf(#[trigger] arrays[i]),
        slim_sound(arrays, targets),
    ensures
        specs_wf(list),
{
    assert(specs(list).len() == list.len());
    assert(slim_specs(arrays, targets).len() == arrays.len());
    assert forall|i: int| 0 <= i < list.len() implies array_spec_wf(
        (#[trigger] list[i]).model(),
    ) by {
        assert(specs(list)[i] == slim_spec(arrays, targets, i));
        assert(specs(list)[i] == list[i].model());
        assert(array_spec_wf(arrays[i]));
        assert(bottleneck_sound(arrays[i], targets[i] as nat));
    }
}

// Reading ====================================================================

/// What the configuration of a network that can be reduced says, with its
/// weights.
pub open spec fn slim_model_of<S: Scalar>(config: Tree, data: Seq<S>) -> Result<
    SlimModel<S>,
    Seq<char>,
> {
    match specs_of::<S>(config) {
        Err(e) => Err(e),
        Ok(arrays) => if !has_scale(config) {
            Err("WaveNet config missing head_scale"@)
        } else {
            match inputs_of(config) {
                Err(e) => Err(e),
                Ok(inputs) => if config.field("head"@) is Some {
                    Err("SlimmableWavenet: post-stack head is not supported"@)
                } else {
                    match allowed_of(config, arrays) {
                        Err(e) => Err(e),
                        Ok(allowed) => match slims_error(arrays, arrays.len()) {
                            Some(e) => Err(e),
                            None => Ok(
                                SlimModel {
                                    arrays,
                                    allowed,
                                    inputs,
                                    condition: config.field("condition_dsp"@),
                                    weights: data,
                                },
                            ),
                        },
                    }
                },
            }
        },
    }
}

/// A network that can be reduced, with the network at full size. Every count
/// that a reduced network can have fits.
pub open spec fn slim_parsed<S: Scalar>(config: Tree, data: Seq<S>) -> Result<
    (SlimModel<S>, NetModel<S>),
    Seq<char>,
> {
    match slim_model_of(config, data) {
        Err(e) => Err(e),
        Ok(m) => match slim_net(m, full_channels(m.arrays)) {
            Err(e) => Err(e),
            Ok(net) => match sizes_error(m.arrays, m.allowed) {
                Some(e) => Err(e),
                None => Ok((m, net)),
            },
        },
    }
}

/// Read the configuration of a network that can be reduced and build the
/// network at full size.
pub fn parse_slimmable<S: Scalar>(config: &Json, weights: &[S]) -> (r: Result<
    SlimmableWaveNet<S>,
    String,
>)
    requires
        lawful::<S>(),
    ensures
        match r {
            Ok(s) => {
                &&& s.wf()
                &&& s.current_channels@ == full_channels(s.model().arrays)
                &&& slim_parsed(config@, weights@) == Ok::<
                    (SlimModel<S>, NetModel<S>),
                    Seq<char>,
                >((s.model(), s.current.model()))
            },
            Err(e) => slim_parsed(config@, weights@) == Err::<
                (SlimModel<S>, NetModel<S>),
                Seq<char>,
            >(e@),
        },
{
    let list = match parse_layer_array_specs::<S>(config) {
        Ok(v) => v,
        Err(e) => {
            return Err(e);
        },
    };
    if !check_scale(config) {
        return Err("WaveNet config missing head_scale".to_owned());
    }
    let in_channels = match read_defaulted(config.field("in_channels"), "in_channels", 1) {
        Ok(n) => n,
        Err(e) => {
            return Err(e);
        },
    };
    if config.field("head").is_some() {
        return Err("SlimmableWavenet: post-stack head is not supported".to_owned());
    }
    proof {
        lemma_specs_len::<S>(config@);
        assert(specs(list@).len() == list@.len());
    }
    let allowed = match read_all_allowed(config, &list) {
        Ok(v) => v,
        Err(e) => {
            return Err(e);
        },
    };
    if let Err(e) = check_slims(&list) {
        return Err(e);
    }
    let condition_json = match config.field("condition_dsp") {
        Some(cd) => Some(cd.duplicate()),
        None => None,
    };
    let condition_dsp = match parse_slim_condition::<S>(&condition_json) {
        Ok(c) => c,
        Err(e) => {
            return Err(e);
        },
    };
    let current = match build(in_channels, &list, None, condition_dsp, weights) {
        Ok(net) => net,
        Err(e) => {
            return Err(e);
        },
    };
    if let Err(e) = check_sizes(&list, &allowed) {
        return Err(e);
    }
    let current_channels = channels_of(&list);
    Ok(
        SlimmableWaveNet {
            specs: list,
            allowed,
            in_channels,
            condition_json,
            full_weights: copy_slice(weights),
            current,
            current_channels,
        },
    )
}

/// There is a configuration for each stack.
pub proof fn lemma_specs_len<S: Scalar>(config: Tree)
    ensures
        specs_of::<S>(config) matches Ok(arrays) ==> (config.field("layers"@) matches Some(
            Tree::Array(items),
        ) && items.len() == arrays.len()),
{
    if let Some(Tree::Array(items)) = config.field("layers"@) {
        lemma_collected_len(items, array_reader::<S>());
    }
}

fn copy_slice<T: Copy>(list: &[T]) -> (r: Vec<T>)
    ensures
        r@ == list@,
{
    let mut out: Vec<T> = Vec::new();
    let mut i: usize = 0;
    while i < list.len()
        invariant
            i <= list@.len(),
            out@ == list@.take(i as int),
        decreases list@.len() - i,
    {
        out.push(list[i]);
        i += 1;
        assert(out@ =~= list@.take(i as int));
    }
    assert(out@ =~= list@);
    out
}

} // verus!
