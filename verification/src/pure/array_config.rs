//! Reading the configuration of a stack of layers.

use crate::json::{same_text, trees, Json, Tree};
use crate::num::{lawful, Scalar};
use crate::pure::activations::{act_of, Act, Activation};
use crate::pure::config::{
    act_reader, acts, as_usize, collected, lemma_collected_step, read_acts, read_wholes, repeat,
    repeat_act, whole_of, whole_reader, wholes_of,
};
use crate::pure::layer::{opt_act, GatingMode};
use crate::pure::plan::{FilmParams, FILM_HEAD1X1_POST, FILM_LAYER1X1_POST};
use crate::text::{decimal, glue, with_number};
use vstd::prelude::*;
use vstd::string::*;

verus! {

/// What a configuration says of a stack of layers.
pub struct ArraySpec<S> {
    /// Channels of the input.
    pub input_size: usize,
    /// Channels of the condition.
    pub condition_size: usize,
    /// Channels of the head's output.
    pub head_size: usize,
    /// Distance between the taps of the head.
    pub head_dilation: usize,
    /// Taps of the head.
    pub head_kernel_size: usize,
    /// Channels of the layers.
    pub channels: usize,
    /// Channels after the activations.
    pub bottleneck: usize,
    /// Taps of each layer.
    pub kernel_sizes: Seq<usize>,
    /// Distance between the taps of each layer.
    pub dilations: Seq<usize>,
    /// The activation of each layer.
    pub activations: Seq<Act<S>>,
    /// What the upper half does in each layer.
    pub gating_modes: Seq<GatingMode>,
    /// The activation of the upper half of each layer.
    pub secondary_activations: Seq<Option<Act<S>>>,
    /// Whether the head adds a bias.
    pub head_bias: bool,
    /// Groups of the convolutions.
    pub groups_input: usize,
    /// Groups of the contributions of the condition.
    pub groups_input_mixin: usize,
    /// Whether the residual is projected.
    pub layer1x1_active: bool,
    /// Groups of the projection to the residual.
    pub layer1x1_groups: usize,
    /// Whether the skip output is projected.
    pub head1x1_active: bool,
    /// Channels of the projection to the skip output.
    pub head1x1_out: usize,
    /// Groups of the projection to the skip output.
    pub head1x1_groups: usize,
    /// The modulations, in the order of their weights.
    pub films: Seq<FilmParams>,
}

/// What a configuration says of a stack of layers, as it is kept.
pub struct LayerArraySpec<S> {
    /// Channels of the input.
    pub input_size: usize,
    /// Channels of the condition.
    pub condition_size: usize,
    /// Channels of the head's output.
    pub head_size: usize,
    /// Distance between the taps of the head.
    pub head_dilation: usize,
    /// Taps of the head.
    pub head_kernel_size: usize,
    /// Channels of the layers.
    pub channels: usize,
    /// Channels after the activations.
    pub bottleneck: usize,
    /// Taps of each layer.
    pub kernel_sizes: Vec<usize>,
    /// Distance between the taps of each layer.
    pub dilations: Vec<usize>,
    /// The activation of each layer.
    pub activations: Vec<Activation<S>>,
    /// What the upper half does in each layer.
    pub gating_modes: Vec<GatingMode>,
    /// The activation of the upper half of each layer.
    pub secondary_activations: Vec<Option<Activation<S>>>,
    /// Whether the head adds a bias.
    pub head_bias: bool,
    /// Groups of the convolutions.
    pub groups_input: usize,
    /// Groups of the contributions of the condition.
    pub groups_input_mixin: usize,
    /// Whether the residual is projected.
    pub layer1x1_active: bool,
    /// Groups of the projection to the residual.
    pub layer1x1_groups: usize,
    /// Whether the skip output is projected.
    pub head1x1_active: bool,
    /// Channels of the projection to the skip output.
    pub head1x1_out: usize,
    /// Groups of the projection to the skip output.
    pub head1x1_groups: usize,
    /// The modulations, in the order of their weights.
    pub films: [FilmParams; 8],
}

/// The functions that a list of optional activations stands for.
pub open spec fn opt_acts<S: Scalar>(list: Seq<Option<Activation<S>>>) -> Seq<Option<Act<S>>> {
    Seq::new(list.len(), |i: int| opt_act(list[i]))
}

impl<S: Scalar> LayerArraySpec<S> {
    /// The content of this configuration.
    pub open spec fn model(&self) -> ArraySpec<S> {
        ArraySpec {
            input_size: self.input_size,
            condition_size: self.condition_size,
            head_size: self.head_size,
            head_dilation: self.head_dilation,
            head_kernel_size: self.head_kernel_size,
            channels: self.channels,
            bottleneck: self.bottleneck,
            kernel_sizes: self.kernel_sizes@,
            dilations: self.dilations@,
            activations: acts(self.activations@),
            gating_modes: self.gating_modes@,
            secondary_activations: opt_acts(self.secondary_activations@),
            head_bias: self.head_bias,
            groups_input: self.groups_input,
            groups_input_mixin: self.groups_input_mixin,
            layer1x1_active: self.layer1x1_active,
            layer1x1_groups: self.layer1x1_groups,
            head1x1_active: self.head1x1_active,
            head1x1_out: self.head1x1_out,
            head1x1_groups: self.head1x1_groups,
            films: self.films@,
        }
    }

    /// A configuration with the same content.
    pub fn duplicate(&self) -> (r: Self)
        ensures
            r.model() == self.model(),
    {
        let r = LayerArraySpec {
            input_size: self.input_size,
            condition_size: self.condition_size,
            head_size: self.head_size,
            head_dilation: self.head_dilation,
            head_kernel_size: self.head_kernel_size,
            channels: self.channels,
            bottleneck: self.bottleneck,
            kernel_sizes: copy_list(&self.kernel_sizes),
            dilations: copy_list(&self.dilations),
            activations: copy_acts(&self.activations),
            gating_modes: copy_list(&self.gating_modes),
            secondary_activations: copy_opt_acts(&self.secondary_activations),
            head_bias: self.head_bias,
            groups_input: self.groups_input,
            groups_input_mixin: self.groups_input_mixin,
            layer1x1_active: self.layer1x1_active,
            layer1x1_groups: self.layer1x1_groups,
            head1x1_active: self.head1x1_active,
            head1x1_out: self.head1x1_out,
            head1x1_groups: self.head1x1_groups,
            films: self.films,
        };
        r
    }

    /// Channels of the summed skip outputs.
    pub fn head_output_size(&self) -> (r: usize)
        ensures
            r == head_rows(self.model()),
    {
        if self.head1x1_active {
            self.head1x1_out
        } else {
            self.bottleneck
        }
    }
}

/// A list with the same elements.
pub fn copy_list<T: Copy>(list: &Vec<T>) -> (r: Vec<T>)
    ensures
        r@ == list@,
{
    let mut out: Vec<T> = Vec::new();
    let mut i: usize = 0;
    while i < list.len()
        invariant
            i <= list@.len(),
            out@ == list@.take(i as int),
        decreases list@.len() - i,
    {
        out.push(list[i]);
        i += 1;
        assert(out@ =~= list@.take(i as int));
    }
    assert(out@ =~= list@);
    out
}

fn copy_acts<S: Scalar>(list: &Vec<Activation<S>>) -> (r: Vec<Activation<S>>)
    ensures
        acts(r@) == acts(list@),
{
    let mut out: Vec<Activation<S>> = Vec::new();
    let mut i: usize = 0;
    while i < list.len()
        invariant
            i <= list@.len(),
            out@.len() == i,
            forall|j: int| 0 <= j < i ==> (#[trigger] out@[j]).model() == list@[j].model(),
        decreases list@.len() - i,
    {
        out.push(list[i].duplicate());
        i += 1;
    }
    assert(acts(out@) =~= acts(list@));
    out
}

fn copy_opt_acts<S: Scalar>(list: &Vec<Option<Activation<S>>>) -> (r: Vec<Option<Activation<S>>>)
    ensures
        opt_acts(r@) == opt_acts(list@),
{
    let mut out: Vec<Option<Activation<S>>> = Vec::new();
    let mut i: usize = 0;
    while i < list.len()
        invariant
            i <= list@.len(),
            out@.len() == i,
            forall|j: int| 0 <= j < i ==> opt_act(#[trigger] out@[j]) == opt_act(list@[j]),
        decreases list@.len() - i,
    {
        out.push(
            match &list[i] {
                Some(a) => Some(a.duplicate()),
                None => None,
            },
        );
        i += 1;
    }
    assert(opt_acts(out@) =~= opt_acts(list@));
    out
}

/// Channels of the summed skip outputs.
pub open spec fn head_rows<S>(a: ArraySpec<S>) -> usize {
    if a.head1x1_active {
        a.head1x1_out
    } else {
        a.bottleneck
    }
}

/// The lists have an entry for each layer, and nothing is modulated that is
/// not there.
pub open spec fn array_spec_wf<S>(a: ArraySpec<S>) -> bool {
    &&& a.kernel_sizes.len() == a.dilations.len()
    &&& a.activations.len() == a.dilations.len()
    &&& a.gating_modes.len() == a.dilations.len()
    &&& a.secondary_activations.len() == a.dilations.len()
    &&& a.films.len() == 8
    &&& !a.layer1x1_active ==> a.bottleneck == a.channels
        && !a.films[FILM_LAYER1X1_POST as int].active
    &&& !a.head1x1_active ==> !a.films[FILM_HEAD1X1_POST as int].active
}

// Pieces =====================================================================

/// A complaint about stack number `idx`.
pub open spec fn ctx(idx: int, m: Seq<char>) -> Seq<char> {
    "layer array "@ + decimal(idx as nat) + ": "@ + m
}

/// Complain about stack number `idx`.
pub fn in_array(idx: usize, m: &str) -> (r: String)
    ensures
        r@ == ctx(idx as int, m@),
{
    let mut r = with_number("layer array ", idx, ": ");
    r.append(m);
    r
}

/// A number that must be there.
pub open spec fn needed(lc: Tree, key: Seq<char>, idx: int, missing: Seq<char>) -> Result<
    usize,
    Seq<char>,
> {
    match lc.field(key) {
        Some(v) => whole_of(v, key),
        None => Err(ctx(idx, missing)),
    }
}

fn read_needed(lc: &Json, key: &str, idx: usize, missing: &str) -> (r: Result<usize, String>)
    ensures
        match r {
            Ok(n) => needed(lc@, key@, idx as int, missing@) == Ok::<usize, Seq<char>>(n),
            Err(e) => needed(lc@, key@, idx as int, missing@) == Err::<usize, Seq<char>>(e@),
        },
{
    match lc.field(key) {
        Some(v) => as_usize(v, key),
        None => Err(in_array(idx, missing)),
    }
}

/// A number with a default.
pub open spec fn defaulted(v: Option<Tree>, what: Seq<char>, default: usize) -> Result<
    usize,
    Seq<char>,
> {
    match v {
        Some(v) => whole_of(v, what),
        None => Ok(default),
    }
}

pub(crate) fn read_defaulted(v: Option<&Json>, what: &str, default: usize) -> (r: Result<
    usize,
    String,
>)
    ensures
        ({
            let want = defaulted(
                match v {
                    Some(v) => Some(v@),
                    None => None,
                },
                what@,
                default,
            );
            match r {
                Ok(n) => want == Ok::<usize, Seq<char>>(n),
                Err(e) => want == Err::<usize, Seq<char>>(e@),
            }
        }),
{
    match v {
        Some(v) => as_usize(v, what),
        None => Ok(default),
    }
}

/// A truth value with a default for everything else.
pub open spec fn flag_of(v: Option<Tree>, default: bool) -> bool {
    match v {
        Some(v) => match v.as_bool() {
            Some(b) => b,
            None => default,
        },
        None => default,
    }
}

fn read_flag(v: Option<&Json>, default: bool) -> (r: bool)
    ensures
        r == flag_of(
            match v {
                Some(v) => Some(v@),
                None => None,
            },
            default,
        ),
{
    match v {
        Some(v) => match v.as_bool() {
            Some(b) => b,
            None => default,
        },
        None => default,
    }
}

/// A number with a default for everything else.
pub open spec fn count_of(v: Option<Tree>, default: usize) -> usize {
    match v {
        Some(v) => match v.as_u64() {
            Some(n) => n as usize,
            None => default,
        },
        None => default,
    }
}

fn read_count(v: Option<&Json>, default: usize) -> (r: usize)
    ensures
        r == count_of(
            match v {
                Some(v) => Some(v@),
                None => None,
            },
            default,
        ),
{
    match v {
        Some(v) => match v.as_u64() {
            Some(n) => n as usize,
            None => default,
        },
        None => default,
    }
}

// Sizes ======================================================================

/// The sizes of a stack.
pub struct Sizes {
    /// Channels of the layers.
    pub channels: usize,
    /// Channels after the activations.
    pub bottleneck: usize,
    /// Channels of the input.
    pub input: usize,
    /// Channels of the condition.
    pub condition: usize,
    /// Groups of the convolutions.
    pub groups_input: usize,
    /// Groups of the contributions of the condition.
    pub groups_mixin: usize,
}

/// The sizes of stack number `idx`.
pub open spec fn sizes_of(lc: Tree, idx: int) -> Result<Sizes, Seq<char>> {
    match needed(lc, "channels"@, idx, "missing channels"@) {
        Err(e) => Err(e),
        Ok(channels) => match defaulted(lc.field("bottleneck"@), "bottleneck"@, channels) {
            Err(e) => Err(e),
            Ok(bottleneck) => match needed(lc, "input_size"@, idx, "missing input_size"@) {
                Err(e) => Err(e),
                Ok(input) => match needed(
                    lc,
                    "condition_size"@,
                    idx,
                    "missing condition_size"@,
                ) {
                    Err(e) => Err(e),
                    Ok(condition) => match defaulted(
                        lc.field("groups_input"@),
                        "groups_input"@,
                        1,
                    ) {
                        Err(e) => Err(e),
                        Ok(groups_input) => match defaulted(
                            lc.field("groups_input_mixin"@),
                            "groups_input_mixin"@,
                            1,
                        ) {
                            Err(e) => Err(e),
                            Ok(groups_mixin) => Ok(
                                Sizes {
                                    channels,
                                    bottleneck,
                                    input,
                                    condition,
                                    groups_input,
                                    groups_mixin,
                                },
                            ),
                        },
                    },
                },
            },
        },
    }
}

fn read_sizes(lc: &Json, idx: usize) -> (r: Result<Sizes, String>)
    ensures
        match r {
            Ok(x) => sizes_of(lc@, idx as int) == Ok::<Sizes, Seq<char>>(x),
            Err(e) => sizes_of(lc@, idx as int) == Err::<Sizes, Seq<char>>(e@),
        },
{
    let channels = match read_needed(lc, "channels", idx, "missing channels") {
        Ok(n) => n,
        Err(e) => {
            return Err(e);
        },
    };
    let bottleneck = match read_defaulted(lc.field("bottleneck"), "bottleneck", channels) {
        Ok(n) => n,
        Err(e) => {
            return Err(e);
        },
    };
    let input = match read_needed(lc, "input_size", idx, "missing input_size") {
        Ok(n) => n,
        Err(e) => {
            return Err(e);
        },
    };
    let condition = match read_needed(lc, "condition_size", idx, "missing condition_size") {
        Ok(n) => n,
        Err(e) => {
            return Err(e);
        },
    };
    let groups_input = match read_defaulted(lc.field("groups_input"), "groups_input", 1) {
        Ok(n) => n,
        Err(e) => {
            return Err(e);
        },
    };
    let groups_mixin = match read_defaulted(
        lc.field("groups_input_mixin"),
        "groups_input_mixin",
        1,
    ) {
        Ok(n) => n,
        Err(e) => {
            return Err(e);
        },
    };
    Ok(Sizes { channels, bottleneck, input, condition, groups_input, groups_mixin })
}

// Projections ================================================================

/// A value under a key of an optional value.
pub open spec fn below(v: Option<Tree>, key: Seq<char>) -> Option<Tree> {
    match v {
        Some(v) => v.get(key),
        None => None,
    }
}

fn read_below<'a>(v: Option<&'a Json>, key: &str) -> (r: Option<&'a Json>)
    ensures
        below(
            match v {
                Some(v) => Some(v@),
                None => None,
            },
            key@,
        ) == match r {
            Some(x) => Some(x@),
            None => None,
        },
{
    match v {
        Some(v) => v.get(key),
        None => None,
    }
}

/// The projection to the residual: whether it is there, and its groups.
pub open spec fn layer1x1_of(lc: Tree) -> (bool, usize) {
    let v = lc.field("layer1x1"@);
    (flag_of(below(v, "active"@), true), count_of(below(v, "groups"@), 1))
}

/// The projection to the skip output: whether it is there, its channels, its
/// groups.
pub open spec fn head1x1_of(lc: Tree, channels: usize) -> (bool, usize, usize) {
    let v = lc.field("head1x1"@);
    (
        flag_of(below(v, "active"@), false),
        count_of(below(v, "out_channels"@), channels),
        count_of(below(v, "groups"@), 1),
    )
}

// Head =======================================================================

/// The head of a stack.
pub struct HeadSizes {
    /// Channels of the output.
    pub size: usize,
    /// Taps.
    pub kernel: usize,
    /// Whether a bias is added.
    pub bias: bool,
    /// Distance between the taps.
    pub dilation: usize,
}

/// The head of stack number `idx` that an object describes.
pub open spec fn head_object(hj: Tree, idx: int) -> Result<HeadSizes, Seq<char>> {
    match hj.get("out_channels"@) {
        None => Err(ctx(idx, "head missing out_channels"@)),
        Some(v) => match whole_of(v, "head.out_channels"@) {
            Err(e) => Err(e),
            Ok(size) => match hj.get("kernel_size"@) {
                None => Err(ctx(idx, "head missing kernel_size"@)),
                Some(v) => match whole_of(v, "head.kernel_size"@) {
                    Err(e) => Err(e),
                    Ok(kernel) => match hj.get("bias"@) {
                        Some(Tree::Bool(bias)) => match defaulted(
                            hj.field("head_dilation"@),
                            "head.head_dilation"@,
                            1,
                        ) {
                            Err(e) => Err(e),
                            Ok(dilation) => Ok(HeadSizes { size, kernel, bias, dilation }),
                        },
                        _ => Err(ctx(idx, "head missing bias"@)),
                    },
                },
            },
        },
    }
}

/// The head of stack number `idx`.
pub open spec fn array_head_of(lc: Tree, idx: int) -> Result<HeadSizes, Seq<char>> {
    match lc.field("head"@) {
        Some(hj) => if hj.is_object() {
            head_object(hj, idx)
        } else {
            Err(ctx(idx, "'head' must be a JSON object"@))
        },
        None => match lc.field("head_size"@) {
            Some(hs) => match whole_of(hs, "head_size"@) {
                Err(e) => Err(e),
                Ok(size) => match lc.field("head_bias"@) {
                    Some(Tree::Bool(bias)) => Ok(
                        HeadSizes { size, kernel: 1, bias, dilation: 1 },
                    ),
                    _ => Err(ctx(idx, "missing head_bias"@)),
                },
            },
            None => Err(
                ctx(idx, "expected 'head' object or legacy 'head_size'/'head_bias'"@),
            ),
        },
    }
}

fn read_head_object(hj: &Json, idx: usize) -> (r: Result<HeadSizes, String>)
    ensures
        match r {
            Ok(x) => head_object(hj@, idx as int) == Ok::<HeadSizes, Seq<char>>(x),
            Err(e) => head_object(hj@, idx as int) == Err::<HeadSizes, Seq<char>>(e@),
        },
{
    let size = match hj.get("out_channels") {
        None => {
            return Err(in_array(idx, "head missing out_channels"));
        },
        Some(v) => match as_usize(v, "head.out_channels") {
            Ok(n) => n,
            Err(e) => {
                return Err(e);
            },
        },
    };
    let kernel = match hj.get("kernel_size") {
        None => {
            return Err(in_array(idx, "head missing kernel_size"));
        },
        Some(v) => match as_usize(v, "head.kernel_size") {
            Ok(n) => n,
            Err(e) => {
                return Err(e);
            },
        },
    };
    let bias = match hj.get("bias") {
        Some(Json::Bool(b)) => *b,
        _ => {
            return Err(in_array(idx, "head missing bias"));
        },
    };
    match read_defaulted(hj.field("head_dilation"), "head.head_dilation", 1) {
        Ok(dilation) => Ok(HeadSizes { size, kernel, bias, dilation }),
        Err(e) => Err(e),
    }
}

fn read_head(lc: &Json, idx: usize) -> (r: Result<HeadSizes, String>)
    ensures
        match r {
            Ok(x) => array_head_of(lc@, idx as int) == Ok::<HeadSizes, Seq<char>>(x),
            Err(e) => array_head_of(lc@, idx as int) == Err::<HeadSizes, Seq<char>>(e@),
        },
{
    if let Some(hj) = lc.field("head") {
        if !hj.is_object() {
            return Err(in_array(idx, "'head' must be a JSON object"));
        }
        return read_head_object(hj, idx);
    }
    match lc.field("head_size") {
        Some(hs) => {
            let size = match as_usize(hs, "head_size") {
                Ok(n) => n,
                Err(e) => {
                    return Err(e);
                },
            };
            match lc.field("head_bias") {
                Some(Json::Bool(b)) => Ok(HeadSizes { size, kernel: 1, bias: *b, dilation: 1 }),
                _ => Err(in_array(idx, "missing head_bias")),
            }
        },
        None => Err(
            in_array(idx, "expected 'head' object or legacy 'head_size'/'head_bias'"),
        ),
    }
}

// Lists with an entry for each layer =========================================

/// The distances between the taps of the layers of stack number `idx`.
pub open spec fn dilations_of(lc: Tree, idx: int) -> Result<Seq<usize>, Seq<char>> {
    match lc.field("dilations"@) {
        Some(Tree::Array(items)) => wholes_of(items, "dilation"@),
        _ => Err(ctx(idx, "missing dilations"@)),
    }
}

fn read_dilations(lc: &Json, idx: usize) -> (r: Result<Vec<usize>, String>)
    ensures
        match r {
            Ok(v) => dilations_of(lc@, idx as int) == Ok::<Seq<usize>, Seq<char>>(v@),
            Err(e) => dilations_of(lc@, idx as int) == Err::<Seq<usize>, Seq<char>>(e@),
        },
{
    if let Some(v) = lc.field("dilations") {
        if let Some(items) = v.as_array() {
            return read_wholes(items, "dilation");
        }
    }
    Err(in_array(idx, "missing dilations"))
}

/// The taps of the `n` layers of stack number `idx`.
pub open spec fn kernels_of(lc: Tree, idx: int, n: nat) -> Result<Seq<usize>, Seq<char>> {
    match lc.field("kernel_sizes"@) {
        Some(Tree::Array(items)) => if items.len() != n {
            Err(ctx(idx, "kernel_sizes size must match dilations size"@))
        } else {
            wholes_of(items, "kernel_size"@)
        },
        Some(_) => Err(ctx(idx, "kernel_sizes must be an array"@)),
        None => match lc.field("kernel_size"@) {
            Some(v) => match whole_of(v, "kernel_size"@) {
                Ok(k) => Ok(Seq::new(n, |i: int| k)),
                Err(e) => Err(e),
            },
            None => Err(ctx(idx, "either kernel_size or kernel_sizes must be provided"@)),
        },
    }
}

fn read_kernels(lc: &Json, idx: usize, n: usize) -> (r: Result<Vec<usize>, String>)
    ensures
        match r {
            Ok(v) => kernels_of(lc@, idx as int, n as nat) == Ok::<Seq<usize>, Seq<char>>(v@),
            Err(e) => kernels_of(lc@, idx as int, n as nat) == Err::<Seq<usize>, Seq<char>>(e@),
        },
{
    if let Some(v) = lc.field("kernel_sizes") {
        return match v.as_array() {
            Some(items) => if items.len() != n {
                Err(in_array(idx, "kernel_sizes size must match dilations size"))
            } else {
                read_wholes(items, "kernel_size")
            },
            None => Err(in_array(idx, "kernel_sizes must be an array")),
        };
    }
    match lc.field("kernel_size") {
        Some(v) => match as_usize(v, "kernel_size") {
            Ok(k) => Ok(repeat(k, n)),
            Err(e) => Err(e),
        },
        None => Err(in_array(idx, "either kernel_size or kernel_sizes must be provided")),
    }
}

/// The activations of the `n` layers of stack number `idx`.
pub open spec fn acts_of<S: Scalar>(lc: Tree, idx: int, n: nat) -> Result<Seq<Act<S>>, Seq<char>> {
    match lc.field("activation"@) {
        None => Err(ctx(idx, "missing activation"@)),
        Some(Tree::Array(items)) => if items.len() != n {
            Err(ctx(idx, "activation array size must match dilations size"@))
        } else {
            collected(items, act_reader::<S>())
        },
        Some(v) => match act_of::<S>(v) {
            Ok(a) => Ok(Seq::new(n, |i: int| a)),
            Err(e) => Err(e),
        },
    }
}

fn read_layer_acts<S: Scalar>(lc: &Json, idx: usize, n: usize) -> (r: Result<
    Vec<Activation<S>>,
    String,
>)
    requires
        lawful::<S>(),
    ensures
        match r {
            Ok(v) => acts_of::<S>(lc@, idx as int, n as nat) == Ok::<Seq<Act<S>>, Seq<char>>(
                acts(v@),
            ),
            Err(e) => acts_of::<S>(lc@, idx as int, n as nat) == Err::<Seq<Act<S>>, Seq<char>>(
                e@,
            ),
        },
{
    let v = match lc.field("activation") {
        Some(v) => v,
        None => {
            return Err(in_array(idx, "missing activation"));
        },
    };
    match v.as_array() {
        Some(items) => if items.len() != n {
            Err(in_array(idx, "activation array size must match dilations size"))
        } else {
            read_acts(items)
        },
        None => match Activation::from_json(v) {
            Ok(a) => Ok(repeat_act(&a, n)),
            Err(e) => Err(e),
        },
    }
}

// Gating =====================================================================

/// What the upper half of a layer does, and the activation of that half.
pub struct Gate<S> {
    /// What it does.
    pub mode: GatingMode,
    /// Its activation.
    pub secondary: Option<Act<S>>,
}

/// The mode with this name.
pub open spec fn mode_named(name: Seq<char>) -> Result<GatingMode, Seq<char>> {
    if name == "none"@ {
        Ok(GatingMode::Ungated)
    } else if name == "gated"@ {
        Ok(GatingMode::Gated)
    } else if name == "blended"@ {
        Ok(GatingMode::Blended)
    } else {
        Err("invalid gating_mode: "@ + name)
    }
}

/// The mode that a value names.
pub open spec fn mode_of(v: Tree) -> Result<GatingMode, Seq<char>> {
    mode_named(
        match v.as_str() {
            Some(s) => s,
            None => ""@,
        },
    )
}

fn read_mode(v: &Json) -> (r: Result<GatingMode, String>)
    ensures
        match r {
            Ok(m) => mode_of(v@) == Ok::<GatingMode, Seq<char>>(m),
            Err(e) => mode_of(v@) == Err::<GatingMode, Seq<char>>(e@),
        },
{
    let name: &str = match v.as_str() {
        Some(s) => s,
        None => "",
    };
    if same_text(name, "none") {
        Ok(GatingMode::Ungated)
    } else if same_text(name, "gated") {
        Ok(GatingMode::Gated)
    } else if same_text(name, "blended") {
        Ok(GatingMode::Blended)
    } else {
        Err(glue("invalid gating_mode: ", name))
    }
}

/// The activation of the upper half, where a value may give one.
pub open spec fn secondary_of<S: Scalar>(mode: GatingMode, v: Option<Tree>) -> Result<
    Option<Act<S>>,
    Seq<char>,
> {
    if mode == GatingMode::Ungated {
        Ok(None)
    } else {
        match v {
            Some(v) => match act_of::<S>(v) {
                Ok(a) => Ok(Some(a)),
                Err(e) => Err(e),
            },
            None => Ok(Some(Act::Sigmoid)),
        }
    }
}

fn read_secondary<S: Scalar>(mode: GatingMode, v: Option<&Json>) -> (r: Result<
    Option<Activation<S>>,
    String,
>)
    requires
        lawful::<S>(),
    ensures
        ({
            let want = secondary_of::<S>(
                mode,
                match v {
                    Some(v) => Some(v@),
                    None => None,
                },
            );
            match r {
                Ok(a) => want == Ok::<Option<Act<S>>, Seq<char>>(opt_act(a)),
                Err(e) => want == Err::<Option<Act<S>>, Seq<char>>(e@),
            }
        }),
{
    match mode {
        GatingMode::Ungated => Ok(None),
        _ => match v {
            Some(v) => match Activation::from_json(v) {
                Ok(a) => Ok(Some(a)),
                Err(e) => Err(e),
            },
            None => Ok(Some(Activation::Sigmoid)),
        },
    }
}

/// What the configuration says of the activation of the upper half of layer
/// `li`.
pub open spec fn secondary_at(all: Option<Tree>, li: int) -> Option<Tree> {
    match all {
        Some(Tree::Array(items)) => if li < items.len() && !(items[li] is Null) {
            Some(items[li])
        } else {
            None
        },
        v => v,
    }
}

fn read_secondary_at<'a>(all: Option<&'a Json>, li: usize) -> (r: Option<&'a Json>)
    ensures
        secondary_at(
            match all {
                Some(v) => Some(v@),
                None => None,
            },
            li as int,
        ) == match r {
            Some(v) => Some(v@),
            None => None,
        },
{
    match all {
        Some(v) => match v.as_array() {
            Some(items) => if li < items.len() {
                assert(trees(items@)[li as int] == items@[li as int]@);
                match &items[li] {
                    Json::Null => None,
                    x => Some(x),
                }
            } else {
                None
            },
            None => Some(v),
        },
        None => None,
    }
}

/// Layer `li` of stack number `idx` as an entry of a list gives it.
pub open spec fn gate_of<S: Scalar>(v: Tree, li: int, all: Option<Tree>, idx: int) -> Result<
    Gate<S>,
    Seq<char>,
> {
    match mode_of(v) {
        Err(e) => Err(ctx(idx, e)),
        Ok(mode) => match secondary_of::<S>(mode, secondary_at(all, li)) {
            Err(e) => Err(e),
            Ok(secondary) => Ok(Gate { mode, secondary }),
        },
    }
}

/// How an element of a list of gates is read.
pub open spec fn gate_reader<S: Scalar>(all: Option<Tree>, idx: int) -> spec_fn(
    Tree,
    int,
) -> Result<Gate<S>, Seq<char>> {
    |v: Tree, i: int| gate_of::<S>(v, i, all, idx)
}

/// The same gate in each of `n` layers.
pub open spec fn same_gates<S>(mode: GatingMode, secondary: Option<Act<S>>, n: nat) -> Seq<
    Gate<S>,
> {
    Seq::new(n, |i: int| Gate { mode, secondary })
}

/// The gates of the `n` layers of stack number `idx`.
pub open spec fn gates_of<S: Scalar>(lc: Tree, idx: int, n: nat) -> Result<
    Seq<Gate<S>>,
    Seq<char>,
> {
    let all = lc.field("secondary_activation"@);
    match lc.field("gating_mode"@) {
        Some(Tree::Array(items)) => if items.len() != n {
            Err(ctx(idx, "gating_mode array size must match dilations size"@))
        } else {
            collected(items, gate_reader::<S>(all, idx))
        },
        Some(v) => match mode_of(v) {
            Err(e) => Err(ctx(idx, e)),
            Ok(mode) => match secondary_of::<S>(mode, all) {
                Err(e) => Err(e),
                Ok(secondary) => Ok(same_gates(mode, secondary, n)),
            },
        },
        None => if flag_of(lc.field("gated"@), false) {
            Ok(same_gates(GatingMode::Gated, Some(Act::Sigmoid), n))
        } else {
            Ok(same_gates(GatingMode::Ungated, None, n))
        },
    }
}

/// The gates of layers, kept as a list of modes and a list of activations.
pub struct Gates<S> {
    /// What each upper half does.
    pub modes: Vec<GatingMode>,
    /// The activation of each upper half.
    pub secondary: Vec<Option<Activation<S>>>,
}

impl<S: Scalar> Gates<S> {
    /// The gates, one for each layer.
    pub open spec fn list(&self) -> Seq<Gate<S>> {
        Seq::new(
            self.modes@.len(),
            |i: int| Gate { mode: self.modes@[i], secondary: opt_act(self.secondary@[i]) },
        )
    }

    /// There are equally many of both.
    pub open spec fn wf(&self) -> bool {
        self.modes@.len() == self.secondary@.len()
    }
}

fn repeat_gate<S: Scalar>(mode: GatingMode, secondary: Option<Activation<S>>, n: usize) -> (r: Gates<
    S,
>)
    ensures
        r.wf(),
        r.list() == same_gates(mode, opt_act(secondary), n as nat),
{
    let mut list: Vec<Option<Activation<S>>> = Vec::new();
    let mut i: usize = 0;
    while i < n
        invariant
            i <= n,
            list@.len() == i,
            forall|j: int| 0 <= j < i ==> opt_act(#[trigger] list@[j]) == opt_act(secondary),
        decreases n - i,
    {
        list.push(
            match &secondary {
                Some(a) => Some(a.duplicate()),
                None => None,
            },
        );
        i += 1;
    }
    let r = Gates { modes: repeat(mode, n), secondary: list };
    assert(r.list() =~= same_gates(mode, opt_act(secondary), n as nat));
    r
}

fn read_gate_list<S: Scalar>(items: &Vec<Json>, all: Option<&Json>, idx: usize) -> (r: Result<
    Gates<S>,
    String,
>)
    requires
        lawful::<S>(),
    ensures
        ({
            let want = collected(
                trees(items@),
                gate_reader::<S>(
                    match all {
                        Some(v) => Some(v@),
                        None => None,
                    },
                    idx as int,
                ),
            );
            match r {
                Ok(g) => g.wf() && want == Ok::<Seq<Gate<S>>, Seq<char>>(g.list()),
                Err(e) => want == Err::<Seq<Gate<S>>, Seq<char>>(e@),
            }
        }),
{
    let ghost list = trees(items@);
    let ghost given = match all {
        Some(v) => Some(v@),
        None => None,
    };
    let ghost f = gate_reader::<S>(given, idx as int);
    let mut out: Gates<S> = Gates { modes: Vec::new(), secondary: Vec::new() };
    let mut i: usize = 0;
    assert(list.take(0) =~= Seq::<Tree>::empty());
    assert(out.list() =~= Seq::<Gate<S>>::empty());
    while i < items.len()
        invariant
            lawful::<S>(),
            i <= items@.len(),
            list == trees(items@),
            given == match all {
                Some(v) => Some(v@),
                None => None,
            },
            f == gate_reader::<S>(given, idx as int),
            out.wf(),
            collected(list.take(i as int), f) == Ok::<Seq<Gate<S>>, Seq<char>>(out.list()),
        decreases items@.len() - i,
    {
        let ghost was = out.list();
        proof {
            lemma_collected_step(list, f, i as int);
        }
        let mode = match read_mode(&items[i]) {
            Ok(m) => m,
            Err(e) => {
                return Err(in_array(idx, e.as_str()));
            },
        };
        let secondary = match read_secondary(mode, read_secondary_at(all, i)) {
            Ok(a) => a,
            Err(e) => {
                return Err(e);
            },
        };
        let ghost gate = Gate { mode, secondary: opt_act(secondary) };
        out.modes.push(mode);
        out.secondary.push(secondary);
        assert(out.list() =~= was.push(gate));
        i += 1;
    }
    assert(list.take(i as int) =~= list);
    Ok(out)
}

fn read_gates<S: Scalar>(lc: &Json, idx: usize, n: usize) -> (r: Result<Gates<S>, String>)
    requires
        lawful::<S>(),
    ensures
        match r {
            Ok(g) => g.wf() && gates_of::<S>(lc@, idx as int, n as nat) == Ok::<
                Seq<Gate<S>>,
                Seq<char>,
            >(g.list()),
            Err(e) => gates_of::<S>(lc@, idx as int, n as nat) == Err::<Seq<Gate<S>>, Seq<char>>(
                e@,
            ),
        },
{
    let all = lc.field("secondary_activation");
    match lc.field("gating_mode") {
        Some(v) => match v.as_array() {
            Some(items) => if items.len() != n {
                Err(in_array(idx, "gating_mode array size must match dilations size"))
            } else {
                read_gate_list(items, all, idx)
            },
            None => match read_mode(v) {
                Err(e) => Err(in_array(idx, e.as_str())),
                Ok(mode) => match read_secondary(mode, all) {
                    Err(e) => Err(e),
                    Ok(secondary) => Ok(repeat_gate(mode, secondary, n)),
                },
            },
        },
        None => if read_flag(lc.field("gated"), false) {
            Ok(repeat_gate(GatingMode::Gated, Some(Activation::Sigmoid), n))
        } else {
            Ok(repeat_gate(GatingMode::Ungated, None, n))
        },
    }
}

// Modulations ================================================================

/// The key of the modulation at a place.
pub open spec fn film_key(slot: int) -> Seq<char> {
    if slot == 0 {
        "conv_pre_film"@
    } else if slot == 1 {
        "conv_post_film"@
    } else if slot == 2 {
        "input_mixin_pre_film"@
    } else if slot == 3 {
        "input_mixin_post_film"@
    } else if slot == 4 {
        "activation_pre_film"@
    } else if slot == 5 {
        "activation_post_film"@
    } else if slot == 6 {
        "layer1x1_post_film"@
    } else {
        "head1x1_post_film"@
    }
}

/// The modulation under a key.
pub open spec fn film_of(lc: Tree, key: Seq<char>, idx: int) -> Result<FilmParams, Seq<char>> {
    match lc.field(key) {
        None => Ok(FilmParams { active: false, shift: false, groups: 0 }),
        Some(Tree::Bool(false)) => Ok(FilmParams { active: false, shift: false, groups: 0 }),
        Some(Tree::Object(o)) => match defaulted(
            Tree::Object(o).field("groups"@),
            key + ".groups"@,
            1,
        ) {
            Ok(groups) => Ok(
                FilmParams {
                    active: flag_of(Tree::Object(o).get("active"@), true),
                    shift: flag_of(Tree::Object(o).get("shift"@), true),
                    groups,
                },
            ),
            Err(e) => Err(e),
        },
        Some(_) => Err(ctx(idx, "'"@ + key + "' must be an object or false"@)),
    }
}

/// Read the modulation under a key.
pub fn parse_film(lc: &Json, key: &str, idx: usize) -> (r: Result<FilmParams, String>)
    ensures
        match r {
            Ok(p) => film_of(lc@, key@, idx as int) == Ok::<FilmParams, Seq<char>>(p),
            Err(e) => film_of(lc@, key@, idx as int) == Err::<FilmParams, Seq<char>>(e@),
        },
{
    match lc.field(key) {
        None => Ok(FilmParams { active: false, shift: false, groups: 0 }),
        Some(v) => match v {
            Json::Bool(false) => Ok(FilmParams { active: false, shift: false, groups: 0 }),
            Json::Object(_) => {
                let active = read_flag(v.get("active"), true);
                let shift = read_flag(v.get("shift"), true);
                let what = glue(key, ".groups");
                match read_defaulted(v.field("groups"), what.as_str(), 1) {
                    Ok(groups) => Ok(FilmParams { active, shift, groups }),
                    Err(e) => Err(e),
                }
            },
            _ => {
                let mut m = glue("'", key);
                m.append("' must be an object or false");
                Err(in_array(idx, m.as_str()))
            },
        },
    }
}

/// The first `k` modulations of stack number `idx`.
pub open spec fn films_of(lc: Tree, idx: int, k: nat) -> Result<Seq<FilmParams>, Seq<char>>
    decreases k,
{
    if k == 0 {
        Ok(Seq::empty())
    } else {
        match films_of(lc, idx, (k - 1) as nat) {
            Err(e) => Err(e),
            Ok(before) => match film_of(lc, film_key(k - 1), idx) {
                Err(e) => Err(e),
                Ok(p) => Ok(before.push(p)),
            },
        }
    }
}

/// The modulations after one that cannot be read do not matter.
proof fn lemma_films_stop(lc: Tree, idx: int, j: nat, k: nat)
    requires
        j <= k,
        films_of(lc, idx, j) is Err,
    ensures
        films_of(lc, idx, k) == films_of(lc, idx, j),
    decreases k - j,
{
    if j < k {
        lemma_films_stop(lc, idx, j, (k - 1) as nat);
    }
}

fn film_name(slot: usize) -> (r: &'static str)
    requires
        slot < 8,
    ensures
        r@ == film_key(slot as int),
{
    if slot == 0 {
        "conv_pre_film"
    } else if slot == 1 {
        "conv_post_film"
    } else if slot == 2 {
        "input_mixin_pre_film"
    } else if slot == 3 {
        "input_mixin_post_film"
    } else if slot == 4 {
        "activation_pre_film"
    } else if slot == 5 {
        "activation_post_film"
    } else if slot == 6 {
        "layer1x1_post_film"
    } else {
        "head1x1_post_film"
    }
}

fn read_films(lc: &Json, idx: usize) -> (r: Result<[FilmParams; 8], String>)
    ensures
        match r {
            Ok(p) => films_of(lc@, idx as int, 8) == Ok::<Seq<FilmParams>, Seq<char>>(p@),
            Err(e) => films_of(lc@, idx as int, 8) == Err::<Seq<FilmParams>, Seq<char>>(e@),
        },
{
    let mut films: [FilmParams; 8] = [FilmParams { active: false, shift: false, groups: 0 };8];
    let mut i: usize = 0;
    assert(films@.take(0) =~= Seq::<FilmParams>::empty());
    while i < 8
        invariant
            i <= 8,
            films@.len() == 8,
            films_of(lc@, idx as int, i as nat) == Ok::<Seq<FilmParams>, Seq<char>>(
                films@.take(i as int),
            ),
        decreases 8 - i,
    {
        let ghost was = films@;
        match parse_film(lc, film_name(i), idx) {
            Ok(p) => {
                films[i] = p;
                assert(films@.take(i + 1) =~= was.take(i as int).push(p));
            },
            Err(e) => {
                proof {
                    lemma_films_stop(lc@, idx as int, (i + 1) as nat, 8);
                }
                return Err(e);
            },
        }
        i += 1;
    }
    assert(films@.take(8) =~= films@);
    Ok(films)
}

// The whole ==================================================================

/// What the layers of a stack are made of, apart from its sizes and its head.
pub struct LayerLists<S> {
    /// Distance between the taps of each layer.
    pub dilations: Seq<usize>,
    /// Taps of each layer.
    pub kernels: Seq<usize>,
    /// The activation of each layer.
    pub acts: Seq<Act<S>>,
    /// What the upper half does in each layer, and its activation.
    pub gates: Seq<Gate<S>>,
    /// The modulations.
    pub films: Seq<FilmParams>,
}

/// The lists of stack number `idx`.
pub open spec fn lists_of<S: Scalar>(lc: Tree, idx: int) -> Result<LayerLists<S>, Seq<char>> {
    match dilations_of(lc, idx) {
        Err(e) => Err(e),
        Ok(dilations) => match kernels_of(lc, idx, dilations.len()) {
            Err(e) => Err(e),
            Ok(kernels) => match acts_of::<S>(lc, idx, dilations.len()) {
                Err(e) => Err(e),
                Ok(acts) => match gates_of::<S>(lc, idx, dilations.len()) {
                    Err(e) => Err(e),
                    Ok(gates) => match films_of(lc, idx, 8) {
                        Err(e) => Err(e),
                        Ok(films) => Ok(LayerLists { dilations, kernels, acts, gates, films }),
                    },
                },
            },
        },
    }
}

/// The configuration made of these pieces.
pub open spec fn assembled<S>(
    sizes: Sizes,
    layer1x1: (bool, usize),
    head1x1: (bool, usize, usize),
    head: HeadSizes,
    lists: LayerLists<S>,
) -> ArraySpec<S> {
    ArraySpec {
        input_size: sizes.input,
        condition_size: sizes.condition,
        head_size: head.size,
        head_dilation: head.dilation,
        head_kernel_size: head.kernel,
        channels: sizes.channels,
        bottleneck: sizes.bottleneck,
        kernel_sizes: lists.kernels,
        dilations: lists.dilations,
        activations: lists.acts,
        gating_modes: Seq::new(lists.gates.len(), |i: int| lists.gates[i].mode),
        secondary_activations: Seq::new(lists.gates.len(), |i: int| lists.gates[i].secondary),
        head_bias: head.bias,
        groups_input: sizes.groups_input,
        groups_input_mixin: sizes.groups_mixin,
        layer1x1_active: layer1x1.0,
        layer1x1_groups: layer1x1.1,
        head1x1_active: head1x1.0,
        head1x1_out: head1x1.1,
        head1x1_groups: head1x1.2,
        films: lists.films,
    }
}

/// What is wrong with a configuration whose pieces can be read, if anything.
pub open spec fn spec_error<S>(a: ArraySpec<S>, idx: int) -> Option<Seq<char>> {
    if !a.layer1x1_active && a.bottleneck != a.channels {
        Some(ctx(idx, "when layer1x1 is inactive, bottleneck must equal channels"@))
    } else if !a.layer1x1_active && a.films[FILM_LAYER1X1_POST as int].active {
        Some(ctx(idx, "layer1x1_post_film cannot be active when layer1x1 is not active"@))
    } else if !a.head1x1_active && a.films[FILM_HEAD1X1_POST as int].active {
        Some(ctx(idx, "head1x1_post_film cannot be active when head1x1 is not active"@))
    } else {
        None
    }
}

/// What a configuration says of stack number `idx`.
pub open spec fn array_spec_of<S: Scalar>(lc: Tree, idx: int) -> Result<ArraySpec<S>, Seq<char>> {
    match sizes_of(lc, idx) {
        Err(e) => Err(e),
        Ok(sizes) => match array_head_of(lc, idx) {
            Err(e) => Err(e),
            Ok(head) => match lists_of::<S>(lc, idx) {
                Err(e) => Err(e),
                Ok(lists) => {
                    let a = assembled(
                        sizes,
                        layer1x1_of(lc),
                        head1x1_of(lc, sizes.channels),
                        head,
                        lists,
                    );
                    match spec_error(a, idx) {
                        Some(e) => Err(e),
                        None => Ok(a),
                    }
                },
            },
        },
    }
}

/// Read the configuration of stack number `idx`.
pub fn parse_layer_array_spec<S: Scalar>(lc: &Json, idx: usize) -> (r: Result<
    LayerArraySpec<S>,
    String,
>)
    requires
        lawful::<S>(),
    ensures
        match r {
            Ok(a) => {
                &&& array_spec_of::<S>(lc@, idx as int) == Ok::<ArraySpec<S>, Seq<char>>(
                    a.model(),
                )
                &&& array_spec_wf(a.model())
            },
            Err(e) => array_spec_of::<S>(lc@, idx as int) == Err::<ArraySpec<S>, Seq<char>>(e@),
        },
{
    let sizes = match read_sizes(lc, idx) {
        Ok(x) => x,
        Err(e) => {
            return Err(e);
        },
    };
    let layer1x1 = lc.field("layer1x1");
    let layer1x1_active = read_flag(read_below(layer1x1, "active"), true);
    let layer1x1_groups = read_count(read_below(layer1x1, "groups"), 1);
    let head1x1 = lc.field("head1x1");
    let head1x1_active = read_flag(read_below(head1x1, "active"), false);
    let head1x1_out = read_count(read_below(head1x1, "out_channels"), sizes.channels);
    let head1x1_groups = read_count(read_below(head1x1, "groups"), 1);
    let head = match read_head(lc, idx) {
        Ok(x) => x,
        Err(e) => {
            return Err(e);
        },
    };
    let dilations = match read_dilations(lc, idx) {
        Ok(x) => x,
        Err(e) => {
            return Err(e);
        },
    };
    let n = dilations.len();
    let kernel_sizes = match read_kernels(lc, idx, n) {
        Ok(x) => x,
        Err(e) => {
            return Err(e);
        },
    };
    let activations = match read_layer_acts::<S>(lc, idx, n) {
        Ok(x) => x,
        Err(e) => {
            return Err(e);
        },
    };
    let gates = match read_gates::<S>(lc, idx, n) {
        Ok(x) => x,
        Err(e) => {
            return Err(e);
        },
    };
    let films = match read_films(lc, idx) {
        Ok(x) => x,
        Err(e) => {
            return Err(e);
        },
    };
    let ghost list = gates.list();
    let spec = LayerArraySpec {
        input_size: sizes.input,
        condition_size: sizes.condition,
        head_size: head.size,
        head_dilation: head.dilation,
        head_kernel_size: head.kernel,
        channels: sizes.channels,
        bottleneck: sizes.bottleneck,
        kernel_sizes,
        dilations,
        activations,
        gating_modes: gates.modes,
        secondary_activations: gates.secondary,
        head_bias: head.bias,
        groups_input: sizes.groups_input,
        groups_input_mixin: sizes.groups_mixin,
        layer1x1_active,
        layer1x1_groups,
        head1x1_active,
        head1x1_out,
        head1x1_groups,
        films,
    };
    proof {
        lemma_lists_len::<S>(lc@, idx as int);
        let lists = lists_of::<S>(lc@, idx as int)->Ok_0;
        let a = assembled(sizes, layer1x1_of(lc@), head1x1_of(lc@, sizes.channels), head, lists);
        assert(spec.model().gating_modes =~= a.gating_modes);
        assert(spec.model().secondary_activations =~= a.secondary_activations);
        assert(spec.model() == a);
    }
    if !spec.layer1x1_active {
        if spec.bottleneck != spec.channels {
            return Err(
                in_array(idx, "when layer1x1 is inactive, bottleneck must equal channels"),
            );
        }
        if spec.films[FILM_LAYER1X1_POST].active {
            return Err(
                in_array(idx, "layer1x1_post_film cannot be active when layer1x1 is not active"),
            );
        }
    }
    if !spec.head1x1_active && spec.films[FILM_HEAD1X1_POST].active {
        return Err(
            in_array(idx, "head1x1_post_film cannot be active when head1x1 is not active"),
        );
    }
    Ok(spec)
}

/// A list that can be read has as many entries as it has elements.
pub proof fn lemma_collected_len<T>(
    items: Seq<Tree>,
    f: spec_fn(Tree, int) -> Result<T, Seq<char>>,
)
    ensures
        collected(items, f) matches Ok(v) ==> v.len() == items.len(),
    decreases items.len(),
{
    if items.len() > 0 {
        lemma_collected_len(items.drop_last(), f);
    }
}

/// There are eight modulations.
proof fn lemma_films_len(lc: Tree, idx: int, k: nat)
    ensures
        films_of(lc, idx, k) matches Ok(v) ==> v.len() == k,
    decreases k,
{
    if k > 0 {
        lemma_films_len(lc, idx, (k - 1) as nat);
    }
}

/// The lists of a stack have an entry for each layer.
pub proof fn lemma_lists_len<S: Scalar>(lc: Tree, idx: int)
    ensures
        lists_of::<S>(lc, idx) matches Ok(l) ==> {
            &&& l.kernels.len() == l.dilations.len()
            &&& l.acts.len() == l.dilations.len()
            &&& l.gates.len() == l.dilations.len()
            &&& l.films.len() == 8
        },
{
    if let Some(Tree::Array(items)) = lc.field("kernel_sizes"@) {
        lemma_collected_len(items, whole_reader("kernel_size"@));
    }
    if let Some(Tree::Array(items)) = lc.field("activation"@) {
        lemma_collected_len(items, act_reader::<S>());
    }
    if let Some(Tree::Array(items)) = lc.field("gating_mode"@) {
        lemma_collected_len(
            items,
            gate_reader::<S>(lc.field("secondary_activation"@), idx),
        );
    }
    lemma_films_len(lc, idx, 8);
}

} // verus!
