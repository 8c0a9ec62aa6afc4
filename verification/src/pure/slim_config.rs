//! Reading which sizes a network can be reduced to.

use crate::json::{same_text, trees, Json, Tree};
use crate::num::Scalar;
use crate::pure::array_config::{ArraySpec, LayerArraySpec};
use crate::pure::config::{collected, lemma_collected_step, read_wholes, wholes_of};
use crate::pure::net_build::specs;
use crate::pure::plan::FilmParams;
use crate::text::glue;
use vstd::prelude::*;
use vstd::string::*;

verus! {

/// The object under `slimmable`, where there is one.
pub open spec fn slim_object(lc: Tree) -> Option<Tree> {
    match lc.field("slimmable"@) {
        Some(s) => if s.is_object() {
            Some(s)
        } else {
            None
        },
        None => None,
    }
}

fn read_slim_object<'a>(lc: &'a Json) -> (r: Option<&'a Json>)
    ensures
        slim_object(lc@) == match r {
            Some(s) => Some(s@),
            None => None,
        },
{
    match lc.field("slimmable") {
        Some(s) => if s.is_object() {
            Some(s)
        } else {
            None
        },
        None => None,
    }
}

/// The name of the method by which sizes are reduced.
pub open spec fn slim_method(s: Tree) -> Seq<char> {
    match s.get("method"@) {
        Some(Tree::Text(m)) => m,
        _ => ""@,
    }
}

fn read_slim_method<'a>(s: &'a Json) -> (r: &'a str)
    ensures
        r@ == slim_method(s@),
{
    match s.get("method") {
        Some(v) => match v.as_str() {
            Some(m) => m,
            None => "",
        },
        None => "",
    }
}

// Which networks can be reduced ==============================================

/// A stack is reduced by keeping its first channels.
pub open spec fn uses_uniform(item: Tree) -> bool {
    slim_object(item) matches Some(s) && slim_method(s) == "slice_channels_uniform"@
}

/// One of the stacks is reduced by keeping its first channels.
pub open spec fn some_uniform(items: Seq<Tree>) -> bool {
    exists|j: int| 0 <= j < items.len() && uses_uniform(#[trigger] items[j])
}

/// The name of the first method that the stacks from number `i` on ask for,
/// where one asks for any.
pub open spec fn method_from(items: Seq<Tree>, i: nat) -> Option<Seq<char>>
    decreases items.len() - i,
{
    if i >= items.len() {
        None
    } else {
        match slim_object(items[i as int]) {
            Some(s) if slim_method(s) != ""@ => Some(slim_method(s)),
            _ => method_from(items, i + 1),
        }
    }
}

/// Whether a network can be reduced: it can where one of its stacks is reduced by
/// keeping its first channels. Where none is, no other method is known.
pub open spec fn slimmable_of(config: Tree) -> Result<bool, Seq<char>> {
    match config.field("layers"@) {
        Some(Tree::Array(items)) => if some_uniform(items) {
            Ok(true)
        } else {
            match method_from(items, 0) {
                Some(m) => Err("SlimmableWavenet: unsupported slimmable method '"@ + m + "'"@),
                None => Ok(false),
            }
        },
        _ => Ok(false),
    }
}

/// Whether one of the stacks is reduced by keeping its first channels.
fn check_uniform(items: &Vec<Json>) -> (r: bool)
    ensures
        r == some_uniform(trees(items@)),
{
    let ghost all = trees(items@);
    let mut i: usize = 0;
    while i < items.len()
        invariant
            i <= items@.len(),
            all == trees(items@),
            forall|j: int| 0 <= j < i ==> !uses_uniform(#[trigger] all[j]),
        decreases items@.len() - i,
    {
        assert(all[i as int] == items@[i as int]@);
        if let Some(s) = read_slim_object(&items[i]) {
            if same_text(read_slim_method(s), "slice_channels_uniform") {
                assert(uses_uniform(all[i as int]));
                return true;
            }
        }
        i += 1;
    }
    false
}

/// Whether a network can be reduced.
pub fn config_is_slimmable(config: &Json) -> (r: Result<bool, String>)
    ensures
        match r {
            Ok(b) => slimmable_of(config@) == Ok::<bool, Seq<char>>(b),
            Err(e) => slimmable_of(config@) == Err::<bool, Seq<char>>(e@),
        },
        config@.field("layers"@) matches Some(Tree::Array(items)) ==> (r == Ok::<bool, String>(
            true,
        ) <==> exists|j: int| 0 <= j < items.len() && uses_uniform(#[trigger] items[j])),
{
    let items = match config.field("layers") {
        Some(v) => match v.as_array() {
            Some(items) => items,
            None => {
                return Ok(false);
            },
        },
        None => {
            return Ok(false);
        },
    };
    if check_uniform(items) {
        return Ok(true);
    }
    let ghost all = trees(items@);
    let mut i: usize = 0;
    while i < items.len()
        invariant
            i <= items@.len(),
            all == trees(items@),
            config@.field("layers"@) == Some(Tree::Array(all)),
            !some_uniform(all),
            method_from(all, 0) == method_from(all, i as nat),
        decreases items@.len() - i,
    {
        assert(all[i as int] == items@[i as int]@);
        if let Some(s) = read_slim_object(&items[i]) {
            let method = read_slim_method(s);
            if !same_text(method, "") {
                let mut e = glue("SlimmableWavenet: unsupported slimmable method '", method);
                e.append("'");
                return Err(e);
            }
        }
        i += 1;
    }
    Ok(false)
}

// Allowed sizes ==============================================================

/// Each number is less than the next.
pub open spec fn ascending(v: Seq<usize>) -> bool {
    forall|i: int, j: int| 0 <= i < j < v.len() ==> v[i] < v[j]
}

fn is_ascending(v: &Vec<usize>) -> (r: bool)
    ensures
        r == ascending(v@),
{
    let mut i: usize = 1;
    while i < v.len()
        invariant
            1 <= i,
            i <= v@.len() || v@.len() == 0,
            forall|a: int, b: int| 0 <= a < b < i && b < v@.len() ==> v@[a] < v@[b],
        decreases v@.len() - i,
    {
        if v[i] <= v[i - 1] {
            return false;
        }
        assert forall|a: int, b: int| 0 <= a < b < i + 1 && b < v@.len() implies v@[a]
            < v@[b] by {
            if b == i && a < i - 1 {
                assert(v@[a] < v@[i - 1]);
            }
        }
        i += 1;
    }
    true
}

/// The numbers from one to `n`.
pub open spec fn one_to(n: nat) -> Seq<usize> {
    Seq::new(n, |i: int| (i + 1) as usize)
}

fn count_up(n: usize) -> (r: Vec<usize>)
    ensures
        r@ == one_to(n as nat),
{
    let mut out: Vec<usize> = Vec::new();
    let mut i: usize = 0;
    while i < n
        invariant
            i <= n,
            out@ == one_to(i as nat),
        decreases n - i,
    {
        out.push(i + 1);
        i += 1;
        assert(out@ =~= one_to(i as nat));
    }
    out
}

/// The list of sizes, where the configuration gives one.
pub open spec fn listed_sizes(s: Tree) -> Option<Seq<Tree>> {
    match s.get("kwargs"@) {
        Some(k) => match k.get("allowed_channels"@) {
            Some(Tree::Array(items)) => Some(items),
            _ => None,
        },
        None => None,
    }
}

/// The sizes before they are checked.
pub open spec fn raw_sizes(s: Tree, channels: usize) -> Result<Seq<usize>, Seq<char>> {
    match listed_sizes(s) {
        Some(items) => wholes_of(items, "allowed_channels entry"@),
        None => Ok(one_to(channels as nat)),
    }
}

fn read_raw_sizes(s: &Json, channels: usize) -> (r: Result<Vec<usize>, String>)
    ensures
        match r {
            Ok(v) => raw_sizes(s@, channels) == Ok::<Seq<usize>, Seq<char>>(v@),
            Err(e) => raw_sizes(s@, channels) == Err::<Seq<usize>, Seq<char>>(e@),
        },
{
    if let Some(k) = s.get("kwargs") {
        if let Some(v) = k.get("allowed_channels") {
            if let Some(items) = v.as_array() {
                return read_wholes(items, "allowed_channels entry");
            }
        }
    }
    Ok(count_up(channels))
}

/// The sizes that a stack with `channels` channels can be reduced to: none, or
/// ascending sizes up to the full one.
pub open spec fn sizes_allowed(lc: Tree, channels: usize) -> Result<Seq<usize>, Seq<char>> {
    match slim_object(lc) {
        Some(s) => if slim_method(s) == "slice_channels_uniform"@ {
            match raw_sizes(s, channels) {
                Err(e) => Err(e),
                Ok(v) => if !ascending(v) {
                    Err("SlimmableWavenet: allowed_channels must be sorted ascending"@)
                } else if v.len() == 0 || v.last() != channels {
                    Err(
                        "SlimmableWavenet: last allowed_channels entry must equal the full channel count for that array"@,
                    )
                } else {
                    Ok(v)
                },
            }
        } else {
            Ok(Seq::empty())
        },
        None => Ok(Seq::empty()),
    }
}

fn read_allowed(lc: &Json, channels: usize) -> (r: Result<Vec<usize>, String>)
    ensures
        match r {
            Ok(v) => {
                &&& sizes_allowed(lc@, channels) == Ok::<Seq<usize>, Seq<char>>(v@)
                &&& allowed_wf(v@, channels)
            },
            Err(e) => sizes_allowed(lc@, channels) == Err::<Seq<usize>, Seq<char>>(e@),
        },
{
    let s = match read_slim_object(lc) {
        Some(s) => s,
        None => {
            let none: Vec<usize> = Vec::new();
            assert(none@ =~= Seq::<usize>::empty());
            return Ok(none);
        },
    };
    if !same_text(read_slim_method(s), "slice_channels_uniform") {
        let none: Vec<usize> = Vec::new();
        assert(none@ =~= Seq::<usize>::empty());
        return Ok(none);
    }
    let v = match read_raw_sizes(s, channels) {
        Ok(v) => v,
        Err(e) => {
            return Err(e);
        },
    };
    if !is_ascending(&v) {
        return Err("SlimmableWavenet: allowed_channels must be sorted ascending".to_owned());
    }
    if v.len() == 0 || v[v.len() - 1] != channels {
        return Err(
            "SlimmableWavenet: last allowed_channels entry must equal the full channel count for that array".to_owned(),
        );
    }
    Ok(v)
}

/// The sizes are ascending and end with the full one, where there are any.
pub open spec fn allowed_wf(v: Seq<usize>, channels: usize) -> bool {
    v.len() > 0 ==> ascending(v) && v.last() == channels
}

/// How the sizes of a stack are read.
pub open spec fn allowed_reader<S>(arrays: Seq<ArraySpec<S>>) -> spec_fn(Tree, int) -> Result<
    Seq<usize>,
    Seq<char>,
> {
    |v: Tree, i: int| sizes_allowed(v, arrays[i].channels)
}

/// The contents of a list of lists.
pub open spec fn lists(v: Seq<Vec<usize>>) -> Seq<Seq<usize>> {
    Seq::new(v.len(), |i: int| v[i]@)
}

/// No stack can be reduced.
pub open spec fn all_empty(v: Seq<Seq<usize>>) -> bool {
    forall|i: int| 0 <= i < v.len() ==> (#[trigger] v[i]).len() == 0
}

/// The sizes of all stacks.
pub open spec fn allowed_of<S>(config: Tree, arrays: Seq<ArraySpec<S>>) -> Result<
    Seq<Seq<usize>>,
    Seq<char>,
> {
    match config.field("layers"@) {
        Some(Tree::Array(items)) => match collected(items, allowed_reader(arrays)) {
            Err(e) => Err(e),
            Ok(v) => if all_empty(v) {
                Err("SlimmableWavenet: at least one layer array must have allowed_channels"@)
            } else {
                Ok(v)
            },
        },
        _ => Ok(Seq::empty()),
    }
}

/// Read the sizes of all stacks.
pub(crate) fn read_all_allowed<S: Scalar>(config: &Json, list: &Vec<LayerArraySpec<S>>) -> (r: Result<
    Vec<Vec<usize>>,
    String,
>)
    requires
        config@.field("layers"@) matches Some(Tree::Array(items)) && items.len() == list@.len(),
    ensures
        match r {
            Ok(v) => {
                &&& allowed_of(config@, specs(list@)) == Ok::<Seq<Seq<usize>>, Seq<char>>(
                    lists(v@),
                )
                &&& v@.len() == list@.len()
                &&& forall|i: int|
                    0 <= i < v@.len() ==> allowed_wf((#[trigger] v@[i])@, list@[i].channels)
            },
            Err(e) => allowed_of(config@, specs(list@)) == Err::<Seq<Seq<usize>>, Seq<char>>(e@),
        },
{
    let mut out: Vec<Vec<usize>> = Vec::new();
    let mut any = false;
    if let Some(v) = config.field("layers") {
        if let Some(items) = v.as_array() {
            let ghost all = trees(items@);
            let ghost arrays = specs(list@);
            let ghost f = allowed_reader(arrays);
            let mut i: usize = 0;
            assert(all.take(0) =~= Seq::<Tree>::empty());
            assert(lists(out@) =~= Seq::<Seq<usize>>::empty());
            while i < items.len()
                invariant
                    i <= items@.len(),
                    items@.len() == list@.len(),
                    out@.len() == i,
                    all == trees(items@),
                    arrays == specs(list@),
                    f == allowed_reader(arrays),
                    config@.field("layers"@) == Some(Tree::Array(all)),
                    collected(all.take(i as int), f) == Ok::<Seq<Seq<usize>>, Seq<char>>(
                        lists(out@),
                    ),
                    any == !all_empty(lists(out@)),
                    forall|j: int|
                        0 <= j < i ==> allowed_wf((#[trigger] out@[j])@, list@[j].channels),
                decreases items@.len() - i,
            {
                let ghost was = lists(out@);
                proof {
                    lemma_collected_step(all, f, i as int);
                    assert(arrays[i as int].channels == list@[i as int].channels);
                }
                match read_allowed(&items[i], list[i].channels) {
                    Ok(x) => {
                        if x.len() > 0 {
                            any = true;
                        }
                        let ghost sizes = x@;
                        out.push(x);
                        proof {
                            let now = lists(out@);
                            assert(now =~= was.push(sizes));
                            if sizes.len() > 0 {
                                assert(now[i as int].len() > 0);
                            } else if all_empty(was) {
                                assert forall|j: int| 0 <= j < now.len() implies (
                                #[trigger] now[j]).len() == 0 by {
                                    if j < i {
                                        assert(now[j] == was[j]);
                                    }
                                }
                            } else {
                                let j = choose|j: int|
                                    0 <= j < was.len() && (#[trigger] was[j]).len() != 0;
                                assert(now[j] == was[j]);
                            }
                        }
                    },
                    Err(e) => {
                        return Err(e);
                    },
                }
                i += 1;
            }
            assert(all.take(i as int) =~= all);
        }
    }
    if !any {
        return Err(
            "SlimmableWavenet: at least one layer array must have allowed_channels".to_owned(),
        );
    }
    Ok(out)
}

// Constraints ================================================================

/// No modulation is grouped.
pub open spec fn films_ungrouped(films: Seq<FilmParams>) -> bool {
    forall|k: int|
        0 <= k < films.len() && (#[trigger] films[k]).active ==> films[k].groups == 1
}

/// Why a stack cannot be reduced, where it cannot.
pub open spec fn slim_error<S>(a: ArraySpec<S>) -> Option<Seq<char>> {
    if a.head_kernel_size != 1 {
        Some(
            "SlimmableWavenet: head rechannel kernel_size must be 1 (slimming with head kernel_size > 1 is not implemented)"@,
        )
    } else if a.groups_input != 1 {
        Some("SlimmableWavenet: groups_input > 1 not supported"@)
    } else if a.groups_input_mixin != 1 {
        Some("SlimmableWavenet: groups_input_mixin > 1 not supported"@)
    } else if a.layer1x1_active && a.layer1x1_groups != 1 {
        Some("SlimmableWavenet: layer1x1 groups > 1 not supported"@)
    } else if a.head1x1_active && a.head1x1_groups != 1 {
        Some("SlimmableWavenet: head1x1 groups > 1 not supported"@)
    } else if !films_ungrouped(a.films) {
        Some("SlimmableWavenet: FiLM groups > 1 not supported"@)
    } else {
        None
    }
}

/// Why the first `k` stacks cannot be reduced, where they cannot.
pub open spec fn slims_error<S>(arrays: Seq<ArraySpec<S>>, k: nat) -> Option<Seq<char>>
    decreases k,
{
    if k == 0 {
        None
    } else {
        match slims_error(arrays, (k - 1) as nat) {
            Some(e) => Some(e),
            None => slim_error(arrays[k - 1]),
        }
    }
}

/// The stacks after one that cannot be reduced do not matter.
proof fn lemma_slims_stop<S>(arrays: Seq<ArraySpec<S>>, j: nat, k: nat)
    requires
        j <= k,
        slims_error(arrays, j) is Some,
    ensures
        slims_error(arrays, k) == slims_error(arrays, j),
    decreases k - j,
{
    if j < k {
        lemma_slims_stop(arrays, j, (k - 1) as nat);
    }
}

/// Where no stack is refused, none is.
pub proof fn lemma_slims_each<S>(arrays: Seq<ArraySpec<S>>, k: nat, i: int)
    requires
        0 <= i < k,
        slims_error(arrays, k) is None,
    ensures
        slim_error(arrays[i]) is None,
    decreases k,
{
    if i < k - 1 {
        lemma_slims_each(arrays, (k - 1) as nat, i);
    }
}

fn check_slim<S: Scalar>(spec: &LayerArraySpec<S>) -> (r: Result<(), String>)
    ensures
        match r {
            Ok(()) => slim_error(spec.model()) is None,
            Err(e) => slim_error(spec.model()) == Some(e@),
        },
{
    if spec.head_kernel_size != 1 {
        return Err(
            "SlimmableWavenet: head rechannel kernel_size must be 1 (slimming with head kernel_size > 1 is not implemented)".to_owned(),
        );
    }
    if spec.groups_input != 1 {
        return Err("SlimmableWavenet: groups_input > 1 not supported".to_owned());
    }
    if spec.groups_input_mixin != 1 {
        return Err("SlimmableWavenet: groups_input_mixin > 1 not supported".to_owned());
    }
    if spec.layer1x1_active && spec.layer1x1_groups != 1 {
        return Err("SlimmableWavenet: layer1x1 groups > 1 not supported".to_owned());
    }
    if spec.head1x1_active && spec.head1x1_groups != 1 {
        return Err("SlimmableWavenet: head1x1 groups > 1 not supported".to_owned());
    }
    let mut k: usize = 0;
    while k < 8
        invariant
            k <= 8,
            spec.films@.len() == 8,
            spec.head_kernel_size == 1,
            spec.groups_input == 1,
            spec.groups_input_mixin == 1,
            spec.layer1x1_active ==> spec.layer1x1_groups == 1,
            spec.head1x1_active ==> spec.head1x1_groups == 1,
            forall|j: int|
                0 <= j < k && (#[trigger] spec.films@[j]).active ==> spec.films@[j].groups == 1,
        decreases 8 - k,
    {
        let p = spec.films[k];
        if p.active && p.groups != 1 {
            assert(!films_ungrouped(spec.films@)) by {
                assert(spec.films@[k as int].active);
            }
            return Err("SlimmableWavenet: FiLM groups > 1 not supported".to_owned());
        }
        k += 1;
    }
    Ok(())
}

pub(crate) fn check_slims<S: Scalar>(list: &Vec<LayerArraySpec<S>>) -> (r: Result<(), String>)
    ensures
        match r {
            Ok(()) => slims_error(specs(list@), list@.len()) is None,
            Err(e) => slims_error(specs(list@), list@.len()) == Some(e@),
        },
{
    let ghost arrays = specs(list@);
    let mut i: usize = 0;
    while i < list.len()
        invariant
            i <= list@.len(),
            arrays == specs(list@),
            slims_error(arrays, i as nat) is None,
        decreases list@.len() - i,
    {
        assert(arrays[i as int] == list@[i as int].model());
        if let Err(e) = check_slim(&list[i]) {
            proof {
                lemma_slims_stop(arrays, (i + 1) as nat, list@.len());
            }
            return Err(e);
        }
        i += 1;
    }
    Ok(())
}

} // verus!
