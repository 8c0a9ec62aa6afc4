//! A network is refused for its sizes only where a ratio selects a size that
//! cannot be built.

use crate::laws::sizes::stack_fits;
use crate::laws::tight::{lemma_bottleneck, only_fitting_sizes};
use crate::num::{Sample, Scalar};
use crate::pure::array_config::{array_spec_wf, head_rows, ArraySpec};
use crate::pure::slim::{
    bottleneck_sound, channels_for, count_fits, counts_error, full_channels, has_choice, has_longer,
    reduced_counts, rows_for, sizes_error, slim_base_wf, slim_net, slim_spec, stacks_sizes_error,
    step_index, SlimModel, MOST_SIZES,
};
use crate::pure::slim_config::allowed_wf;
use vstd::prelude::*;

verus! {

/// Some ratio is `k` of `len` steps.
pub open spec fn reached<D: Sample>(len: usize, k: isize) -> bool {
    exists|a: D| #[trigger] a.step_of_spec(len) == k
}

/// Some ratio reaches the last of a few steps, and not the last of many.
pub open spec fn parted<D: Sample>(few: usize, many: usize) -> bool {
    exists|a: D|
        #[trigger] a.step_of_spec(few) >= few - 1 && #[trigger] a.step_of_spec(many) < many - 1
}

/// What ratios of a number type do as real numbers do: every step is reached, and
/// there is room between the last of a few steps and the last of many.
pub open spec fn steps_are_reached<D: Sample>() -> bool {
    &&& forall|len: usize, k: isize|
        0 <= k < len <= MOST_SIZES ==> #[trigger] reached::<D>(len, k)
    &&& forall|few: usize, many: usize|
        0 < few < many <= MOST_SIZES ==> #[trigger] parted::<D>(few, many)
}

/// Where a count is refused, one of those checked does not fit.
proof fn lemma_refused_count<S>(
    arrays: Seq<ArraySpec<S>>,
    counts: Seq<usize>,
    i: int,
    n: nat,
) -> (k: int)
    requires
        counts_error(arrays, counts, i, n) is Some,
    ensures
        0 <= k < n,
        !count_fits(arrays, i, counts[k]),
    decreases n,
{
    if counts_error(arrays, counts, i, (n - 1) as nat) is Some {
        lemma_refused_count(arrays, counts, i, (n - 1) as nat)
    } else {
        n - 1
    }
}

/// Where a stack is refused, one of those checked has a count that does not fit.
proof fn lemma_refused_stack<S>(
    arrays: Seq<ArraySpec<S>>,
    allowed: Seq<Seq<usize>>,
    n: nat,
) -> (i: int)
    requires
        stacks_sizes_error(arrays, allowed, n) is Some,
    ensures
        0 <= i < n,
        ({
            let counts = reduced_counts(arrays, allowed, i);
            counts_error(arrays, counts, i, counts.len()) is Some
        }),
    decreases n,
{
    if stacks_sizes_error(arrays, allowed, (n - 1) as nat) is Some {
        lemma_refused_stack(arrays, allowed, (n - 1) as nat)
    } else {
        n - 1
    }
}

/// A stack that is not at the end of its list makes the network a reduced one.
proof fn lemma_reduced<S: Scalar>(m: SlimModel<S>, val: S::Wide, j: int)
    requires
        slim_base_wf(m),
        0 <= j < m.arrays.len(),
        m.allowed[j].len() > 1,
        step_index(val, m.allowed[j].len()) < m.allowed[j].len() - 1,
    ensures
        channels_for(m, val) != full_channels(m.arrays),
{
    let list = m.allowed[j];
    assert(allowed_wf(list, m.arrays[j].channels));
    assert(list[step_index(val, list.len())] < list[list.len() - 1]);
    assert(channels_for(m, val)[j] != full_channels(m.arrays)[j]);
}

/// Every count that is checked is one that a ratio selects for a reduced network.
proof fn lemma_count_is_selected<S: Scalar>(m: SlimModel<S>, i: int, k: int) -> (val: S::Wide)
    requires
        slim_base_wf(m),
        has_choice(m.allowed),
        steps_are_reached::<S::Wide>(),
        forall|j: int| 0 <= j < m.allowed.len() ==> (#[trigger] m.allowed[j]).len() <= MOST_SIZES,
        0 <= i < m.arrays.len(),
        0 <= k < reduced_counts(m.arrays, m.allowed, i).len(),
    ensures
        channels_for(m, val)[i] == reduced_counts(m.arrays, m.allowed, i)[k],
        channels_for(m, val) != full_channels(m.arrays),
{
    let list = m.allowed[i];
    let len = list.len() as usize;
    if list.len() == 0 {
        let j = choose|j: int| 0 <= j < m.allowed.len() && (#[trigger] m.allowed[j]).len() > 1;
        let many = m.allowed[j].len() as usize;
        assert(reached::<S::Wide>(many, 0));
        let val = choose|a: S::Wide| #[trigger] a.step_of_spec(many) == 0;
        lemma_reduced(m, val, j);
        val
    } else if k < list.len() - 1 {
        let step = k as isize;
        assert(reached::<S::Wide>(len, step));
        let val = choose|a: S::Wide| #[trigger] a.step_of_spec(len) == step;
        lemma_reduced(m, val, i);
        val
    } else {
        assert(has_longer(m.allowed, list.len()));
        let j = choose|j: int|
            0 <= j < m.allowed.len() && (#[trigger] m.allowed[j]).len() > list.len();
        let many = m.allowed[j].len() as usize;
        assert(parted::<S::Wide>(len, many));
        let val = choose|a: S::Wide|
            #[trigger] a.step_of_spec(len) >= len - 1 && #[trigger] a.step_of_spec(many) < many - 1;
        lemma_reduced(m, val, j);
        val
    }
}

/// A network that is refused for its sizes has a ratio that selects a size that
/// cannot be built, where every stack keeps a channel and the last writes one.
pub proof fn refused_sizes_can_be_selected<S: Scalar>(m: SlimModel<S>)
    requires
        slim_base_wf(m),
        forall|i: int| 0 <= i < m.arrays.len() ==> array_spec_wf(#[trigger] m.arrays[i]),
        sizes_error(m.arrays, m.allowed) is Some,
        steps_are_reached::<S::Wide>(),
        forall|i: int| 0 <= i < m.allowed.len() ==> (#[trigger] m.allowed[i]).len() <= MOST_SIZES,
        forall|i: int| 0 <= i < m.arrays.len() ==> (#[trigger] m.arrays[i]).channels >= 1,
        m.arrays.last().head_size >= 1,
        forall|i: int, k: int|
            0 <= i < m.allowed.len() && 0 <= k < m.allowed[i].len() ==> #[trigger] m.allowed[i][k]
                >= 1,
    ensures
        exists|val: S::Wide| slim_net(m, #[trigger] channels_for(m, val)) is Err,
{
    let n = m.arrays.len();
    let i = lemma_refused_stack(m.arrays, m.allowed, n);
    let counts = reduced_counts(m.arrays, m.allowed, i);
    let k = lemma_refused_count(m.arrays, counts, i, counts.len());
    let val = lemma_count_is_selected(m, i, k);
    let targets = channels_for(m, val);
    assert forall|j: int| 0 <= j < targets.len() implies #[trigger] targets[j] >= 1 by {
        if m.allowed[j].len() > 0 {
            assert(m.allowed[j][step_index(val, m.allowed[j].len())] >= 1);
        } else {
            assert(m.arrays[j].channels >= 1);
        }
    }
    if slim_net(m, targets) is Ok {
        only_fitting_sizes(m, targets);
        assert(stack_fits(m.arrays, targets, i));
        assert(bottleneck_sound(m.arrays[i], targets[i] as nat));
        lemma_bottleneck(m.arrays, targets, i);
        assert(head_rows(slim_spec(m.arrays, targets, i)) == rows_for(
            m.arrays[i],
            targets[i] as nat,
        ));
        if i + 1 < n {
            assert(stack_fits(m.arrays, targets, i + 1));
        }
        assert(count_fits(m.arrays, i, targets[i]));
    }
    assert(slim_net(m, channels_for(m, val)) is Err);
}

} // verus!
