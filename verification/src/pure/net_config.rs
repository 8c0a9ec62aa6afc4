//! Reading the configuration of a network.

use crate::json::{lemma_get_smaller, same_text, trees, Json, Tree};
use crate::num::{lawful, Sample, Scalar};
use crate::pure::activations::{act_of, Activation};
use crate::pure::array_config::{
    array_spec_of, defaulted, parse_layer_array_spec, read_defaulted, ArraySpec, LayerArraySpec,
};
use crate::pure::config::{
    as_usize, collected, lemma_collected_step, read_wholes, whole_of, wholes_of,
};
use crate::pure::net::{condition_model, NetModel, WaveNet};
use crate::pure::net_build::{build, net_of, specs, specs_wf, HeadSpec};
use crate::pure::plan::HeadPlan;
use crate::render::{rendered, with_json};
use crate::text::glue;
use vstd::prelude::*;
use vstd::string::*;

verus! {

// Weights ====================================================================

/// A weight.
pub open spec fn weight_of<S: Scalar>(v: Tree) -> Result<S, Seq<char>> {
    match v.as_real() {
        Some(bits) => Ok(S::narrow_spec(S::Wide::from_bits_spec(bits))),
        None => Err("non-numeric weight: "@ + rendered(v)),
    }
}

/// How an element of a list of weights is read.
pub open spec fn weight_reader<S: Scalar>() -> spec_fn(Tree, int) -> Result<S, Seq<char>> {
    |v: Tree, i: int| weight_of::<S>(v)
}

/// The weights of a model.
pub open spec fn weights_of<S: Scalar>(value: Tree) -> Result<Seq<S>, Seq<char>> {
    match value.get("weights"@) {
        Some(Tree::Array(items)) => collected(items, weight_reader::<S>()),
        _ => Err("corrupted model file is missing weights"@),
    }
}

fn read_weights<S: Scalar>(items: &Vec<Json>) -> (r: Result<Vec<S>, String>)
    requires
        lawful::<S>(),
    ensures
        match r {
            Ok(v) => collected(trees(items@), weight_reader::<S>())
                == Ok::<Seq<S>, Seq<char>>(v@),
            Err(e) => collected(trees(items@), weight_reader::<S>())
                == Err::<Seq<S>, Seq<char>>(e@),
        },
{
    let ghost all = trees(items@);
    let ghost f = weight_reader::<S>();
    let mut out: Vec<S> = Vec::new();
    let mut i: usize = 0;
    assert(all.take(0) =~= Seq::<Tree>::empty());
    while i < items.len()
        invariant
            lawful::<S>(),
            i <= items@.len(),
            all == trees(items@),
            f == weight_reader::<S>(),
            collected(all.take(i as int), f) == Ok::<Seq<S>, Seq<char>>(out@),
        decreases items@.len() - i,
    {
        proof {
            lemma_collected_step(all, f, i as int);
        }
        match items[i].as_real() {
            Some(bits) => out.push(S::narrow(S::Wide::from_bits(bits))),
            None => {
                return Err(with_json("non-numeric weight: ", &items[i]));
            },
        }
        i += 1;
    }
    assert(all.take(i as int) =~= all);
    Ok(out)
}

/// Read the weights of a model.
pub fn parse_weights<S: Scalar>(value: &Json) -> (r: Result<Vec<S>, String>)
    requires
        lawful::<S>(),
    ensures
        match r {
            Ok(v) => weights_of::<S>(value@) == Ok::<Seq<S>, Seq<char>>(v@),
            Err(e) => weights_of::<S>(value@) == Err::<Seq<S>, Seq<char>>(e@),
        },
{
    if let Some(v) = value.get("weights") {
        if let Some(items) = v.as_array() {
            return read_weights(items);
        }
    }
    Err("corrupted model file is missing weights".to_owned())
}

// Stacks =====================================================================

/// How an element of a list of stacks is read.
pub open spec fn array_reader<S: Scalar>() -> spec_fn(Tree, int) -> Result<
    ArraySpec<S>,
    Seq<char>,
> {
    |v: Tree, i: int| array_spec_of::<S>(v, i)
}

/// The stacks of a network.
pub open spec fn specs_of<S: Scalar>(config: Tree) -> Result<Seq<ArraySpec<S>>, Seq<char>> {
    match config.field("layers"@) {
        Some(Tree::Array(items)) => if items.len() == 0 {
            Err("WaveNet requires at least one layer array"@)
        } else {
            collected(items, array_reader::<S>())
        },
        _ => Err("WaveNet config missing 'layers' array"@),
    }
}

/// Read the stacks of a network.
pub fn parse_layer_array_specs<S: Scalar>(config: &Json) -> (r: Result<
    Vec<LayerArraySpec<S>>,
    String,
>)
    requires
        lawful::<S>(),
    ensures
        match r {
            Ok(v) => {
                &&& specs_of::<S>(config@) == Ok::<Seq<ArraySpec<S>>, Seq<char>>(specs(v@))
                &&& specs_wf(v@)
                &&& v@.len() > 0
            },
            Err(e) => specs_of::<S>(config@) == Err::<Seq<ArraySpec<S>>, Seq<char>>(e@),
        },
{
    let items = match config.field("layers") {
        Some(v) => match v.as_array() {
            Some(items) => items,
            None => {
                return Err("WaveNet config missing 'layers' array".to_owned());
            },
        },
        None => {
            return Err("WaveNet config missing 'layers' array".to_owned());
        },
    };
    if items.len() == 0 {
        return Err("WaveNet requires at least one layer array".to_owned());
    }
    let ghost all = trees(items@);
    let ghost f = array_reader::<S>();
    let mut out: Vec<LayerArraySpec<S>> = Vec::new();
    let mut i: usize = 0;
    assert(all.take(0) =~= Seq::<Tree>::empty());
    assert(specs(out@) =~= Seq::<ArraySpec<S>>::empty());
    while i < items.len()
        invariant
            lawful::<S>(),
            i <= items@.len(),
            out@.len() == i,
            all == trees(items@),
            f == array_reader::<S>(),
            specs_of::<S>(config@) == collected(all, f),
            collected(all.take(i as int), f) == Ok::<Seq<ArraySpec<S>>, Seq<char>>(specs(out@)),
            specs_wf(out@),
        decreases items@.len() - i,
    {
        let ghost was = out@;
        proof {
            lemma_collected_step(all, f, i as int);
        }
        match parse_layer_array_spec(&items[i], i) {
            Ok(x) => out.push(x),
            Err(e) => {
                return Err(e);
            },
        }
        assert(specs(out@) =~= specs(was).push(out@.last().model()));
        i += 1;
    }
    assert(all.take(i as int) =~= all);
    Ok(out)
}

// The head ===================================================================

/// A number of the head that must be there.
pub open spec fn head_number(
    hj: Tree,
    key: Seq<char>,
    what: Seq<char>,
    missing: Seq<char>,
) -> Result<usize, Seq<char>> {
    match hj.get(key) {
        Some(v) => whole_of(v, what),
        None => Err(missing),
    }
}

fn read_head_number(hj: &Json, key: &str, what: &str, missing: &str) -> (r: Result<usize, String>)
    ensures
        match r {
            Ok(n) => head_number(hj@, key@, what@, missing@) == Ok::<usize, Seq<char>>(n),
            Err(e) => head_number(hj@, key@, what@, missing@) == Err::<usize, Seq<char>>(e@),
        },
{
    match hj.get(key) {
        Some(v) => as_usize(v, what),
        None => Err(missing.to_owned()),
    }
}

/// The taps of the convolutions of the head.
pub open spec fn head_kernels(hj: Tree) -> Result<Seq<usize>, Seq<char>> {
    match hj.get("kernel_sizes"@) {
        Some(Tree::Array(items)) => match wholes_of(items, "head kernel_size"@) {
            Err(e) => Err(e),
            Ok(kernels) => if kernels.len() == 0 {
                Err("head.kernel_sizes must be non-empty"@)
            } else {
                Ok(kernels)
            },
        },
        _ => Err("head missing kernel_sizes"@),
    }
}

fn read_head_kernels(hj: &Json) -> (r: Result<Vec<usize>, String>)
    ensures
        match r {
            Ok(v) => head_kernels(hj@) == Ok::<Seq<usize>, Seq<char>>(v@) && v@.len() > 0,
            Err(e) => head_kernels(hj@) == Err::<Seq<usize>, Seq<char>>(e@),
        },
{
    if let Some(v) = hj.get("kernel_sizes") {
        if let Some(items) = v.as_array() {
            return match read_wholes(items, "head kernel_size") {
                Err(e) => Err(e),
                Ok(kernels) => if kernels.len() == 0 {
                    Err("head.kernel_sizes must be non-empty".to_owned())
                } else {
                    Ok(kernels)
                },
            };
        }
    }
    Err("head missing kernel_sizes".to_owned())
}

/// Whether the head may say that it reads these channels.
pub open spec fn legacy_inputs(hj: Tree, inputs: usize) -> Result<(), Seq<char>> {
    match hj.field("in_channels"@) {
        Some(v) => match whole_of(v, "head.in_channels"@) {
            Err(e) => Err(e),
            Ok(n) => if n != inputs {
                Err("WaveNet head.in_channels must equal last layer's head_size"@)
            } else {
                Ok(())
            },
        },
        None => Ok(()),
    }
}

/// The head that an object describes, after stacks with `inputs` channels.
pub open spec fn head_object_of<S: Scalar>(hj: Tree, inputs: usize) -> Result<
    HeadPlan<S>,
    Seq<char>,
> {
    match legacy_inputs(hj, inputs) {
        Err(e) => Err(e),
        Ok(_) => match head_number(
            hj,
            "channels"@,
            "head.channels"@,
            "head missing channels"@,
        ) {
            Err(e) => Err(e),
            Ok(channels) => match head_number(
                hj,
                "out_channels"@,
                "head.out_channels"@,
                "head missing out_channels"@,
            ) {
                Err(e) => Err(e),
                Ok(outputs) => match head_kernels(hj) {
                    Err(e) => Err(e),
                    Ok(kernels) => match hj.get("activation"@) {
                        None => Err("head missing activation"@),
                        Some(a) => match act_of::<S>(a) {
                            Err(e) => Err(e),
                            Ok(act) => Ok(
                                HeadPlan {
                                    inputs: inputs as nat,
                                    channels: channels as nat,
                                    outputs: outputs as nat,
                                    kernels: Seq::new(
                                        kernels.len(),
                                        |i: int| kernels[i] as nat,
                                    ),
                                    act,
                                },
                            ),
                        },
                    },
                },
            },
        },
    }
}

/// The head of a network, where there is one.
pub open spec fn head_of<S: Scalar>(config: Tree, inputs: usize) -> Result<
    Option<HeadPlan<S>>,
    Seq<char>,
> {
    match config.field("head"@) {
        None => Ok(None),
        Some(hj) => match head_object_of::<S>(hj, inputs) {
            Ok(h) => Ok(Some(h)),
            Err(e) => Err(e),
        },
    }
}

fn read_head_object<S: Scalar>(hj: &Json, inputs: usize) -> (r: Result<HeadSpec<S>, String>)
    requires
        lawful::<S>(),
    ensures
        match r {
            Ok(h) => {
                &&& head_object_of::<S>(hj@, inputs) == Ok::<HeadPlan<S>, Seq<char>>(h.plan())
                &&& h.kernel_sizes@.len() > 0
                &&& h.in_channels == inputs
            },
            Err(e) => head_object_of::<S>(hj@, inputs) == Err::<HeadPlan<S>, Seq<char>>(e@),
        },
{
    if let Some(v) = hj.field("in_channels") {
        match as_usize(v, "head.in_channels") {
            Err(e) => {
                return Err(e);
            },
            Ok(n) => {
                if n != inputs {
                    return Err(
                        "WaveNet head.in_channels must equal last layer's head_size".to_owned(),
                    );
                }
            },
        }
    }
    let channels = match read_head_number(
        hj,
        "channels",
        "head.channels",
        "head missing channels",
    ) {
        Ok(n) => n,
        Err(e) => {
            return Err(e);
        },
    };
    let out_channels = match read_head_number(
        hj,
        "out_channels",
        "head.out_channels",
        "head missing out_channels",
    ) {
        Ok(n) => n,
        Err(e) => {
            return Err(e);
        },
    };
    let kernel_sizes = match read_head_kernels(hj) {
        Ok(v) => v,
        Err(e) => {
            return Err(e);
        },
    };
    match hj.get("activation") {
        None => Err("head missing activation".to_owned()),
        Some(a) => match Activation::from_json(a) {
            Err(e) => Err(e),
            Ok(activation) => Ok(
                HeadSpec { in_channels: inputs, channels, out_channels, kernel_sizes, activation },
            ),
        },
    }
}

/// Read the head of a network, where there is one.
pub fn parse_head_spec<S: Scalar>(config: &Json, list: &Vec<LayerArraySpec<S>>) -> (r: Result<
    Option<HeadSpec<S>>,
    String,
>)
    requires
        lawful::<S>(),
        list@.len() > 0,
    ensures
        match r {
            Ok(h) => {
                &&& head_of::<S>(config@, list@.last().head_size) == Ok::<
                    Option<HeadPlan<S>>,
                    Seq<char>,
                >(
                    match h {
                        Some(x) => Some(x.plan()),
                        None => None,
                    },
                )
                &&& h matches Some(x) ==> x.kernel_sizes@.len() > 0 && x.in_channels
                    == list@.last().head_size
            },
            Err(e) => head_of::<S>(config@, list@.last().head_size) == Err::<
                Option<HeadPlan<S>>,
                Seq<char>,
            >(e@),
        },
{
    match config.field("head") {
        None => Ok(None),
        Some(hj) => match read_head_object(hj, list[list.len() - 1].head_size) {
            Ok(h) => Ok(Some(h)),
            Err(e) => Err(e),
        },
    }
}

// The network ================================================================

/// Whether a configuration gives a scale. The scale itself is the last weight.
pub open spec fn has_scale(config: Tree) -> bool {
    config.field("head_scale"@) matches Some(v) && v.as_real() is Some
}

pub(crate) fn check_scale(config: &Json) -> (r: bool)
    ensures
        r == has_scale(config@),
{
    match config.field("head_scale") {
        Some(v) => v.as_real().is_some(),
        None => false,
    }
}

/// Channels that a network reads.
pub open spec fn inputs_of(config: Tree) -> Result<usize, Seq<char>> {
    defaulted(config.field("in_channels"@), "in_channels"@, 1)
}

/// The parts of a configuration but for the network that makes the condition.
pub struct NetParts<S> {
    /// Channels read.
    pub inputs: usize,
    /// The stacks.
    pub arrays: Seq<ArraySpec<S>>,
    /// The head.
    pub head: Option<HeadPlan<S>>,
}

/// The parts of a configuration.
pub open spec fn parts_of<S: Scalar>(config: Tree) -> Result<NetParts<S>, Seq<char>> {
    match specs_of::<S>(config) {
        Err(e) => Err(e),
        Ok(arrays) => if !has_scale(config) {
            Err("WaveNet config missing head_scale"@)
        } else {
            match inputs_of(config) {
                Err(e) => Err(e),
                Ok(inputs) => match head_of::<S>(config, arrays.last().head_size) {
                    Err(e) => Err(e),
                    Ok(head) => Ok(NetParts { inputs, arrays, head }),
                },
            }
        },
    }
}

/// The network of a configuration and a list of weights.
pub open spec fn parsed<S: Scalar>(config: Tree, data: Seq<S>) -> Result<NetModel<S>, Seq<char>>
    decreases config, 0nat,
{
    match parts_of::<S>(config) {
        Err(e) => Err(e),
        Ok(p) => match config.field("condition_dsp"@) {
            None => net_of(p.inputs as nat, p.arrays, p.head, None, data),
            Some(cd) => {
                proof {
                    lemma_get_smaller(config, "condition_dsp"@);
                }
                match condition_of::<S>(cd) {
                    Err(e) => Err(e),
                    Ok(m) => net_of(p.inputs as nat, p.arrays, p.head, Some(m), data),
                }
            },
        },
    }
}

/// The network that makes a condition.
pub open spec fn condition_of<S: Scalar>(cd: Tree) -> Result<NetModel<S>, Seq<char>>
    decreases cd, 0nat,
{
    match cd.get("architecture"@) {
        Some(Tree::Text(arch)) => if arch != "WaveNet"@ {
            Err(
                "condition_dsp architecture '"@ + arch
                    + "' is not supported by the pure-Rust engine"@,
            )
        } else {
            match cd.get("config"@) {
                None => Err("condition_dsp missing 'config'"@),
                Some(config) => match weights_of::<S>(cd) {
                    Err(e) => Err(e),
                    Ok(data) => {
                        proof {
                            lemma_get_smaller(cd, "config"@);
                        }
                        parsed(config, data)
                    },
                },
            }
        },
        _ => Err("condition_dsp missing 'architecture'"@),
    }
}

/// The network that makes the condition of a configuration, where there is one.
pub open spec fn optional_condition<S: Scalar>(config: Tree) -> Result<
    Option<NetModel<S>>,
    Seq<char>,
> {
    match config.field("condition_dsp"@) {
        None => Ok(None),
        Some(cd) => match condition_of::<S>(cd) {
            Err(e) => Err(e),
            Ok(m) => Ok(Some(m)),
        },
    }
}

/// Read the network that makes a condition.
pub fn parse_condition_dsp_value<S: Scalar>(cd: &Json) -> (r: Result<Box<WaveNet<S>>, String>)
    requires
        lawful::<S>(),
    ensures
        match r {
            Ok(net) => net.built() && condition_of::<S>(cd@) == Ok::<NetModel<S>, Seq<char>>(
                net.model(),
            ),
            Err(e) => condition_of::<S>(cd@) == Err::<NetModel<S>, Seq<char>>(e@),
        },
    decreases *cd, 0nat,
{
    let arch: &str = match cd.get("architecture") {
        Some(v) => match v.as_str() {
            Some(s) => s,
            None => {
                return Err("condition_dsp missing 'architecture'".to_owned());
            },
        },
        None => {
            return Err("condition_dsp missing 'architecture'".to_owned());
        },
    };
    if !same_text(arch, "WaveNet") {
        let mut e = glue("condition_dsp architecture '", arch);
        e.append("' is not supported by the pure-Rust engine");
        return Err(e);
    }
    let config = match cd.get("config") {
        Some(v) => v,
        None => {
            return Err("condition_dsp missing 'config'".to_owned());
        },
    };
    let weights = match parse_weights::<S>(cd) {
        Ok(v) => v,
        Err(e) => {
            return Err(e);
        },
    };
    match parse(config, weights.as_slice()) {
        Ok(net) => Ok(Box::new(net)),
        Err(e) => Err(e),
    }
}

/// Read the network that makes the condition of a configuration, where there
/// is one.
pub fn parse_condition_dsp<S: Scalar>(config: &Json) -> (r: Result<
    Option<Box<WaveNet<S>>>,
    String,
>)
    requires
        lawful::<S>(),
    ensures
        match r {
            Ok(net) => {
                &&& net matches Some(n) ==> n.built()
                &&& optional_condition::<S>(config@) == Ok::<Option<NetModel<S>>, Seq<char>>(
                    condition_model(net),
                )
            },
            Err(e) => optional_condition::<S>(config@) == Err::<Option<NetModel<S>>, Seq<char>>(
                e@,
            ),
        },
    decreases *config, 0nat,
{
    match config.field("condition_dsp") {
        None => Ok(None),
        Some(cd) => match parse_condition_dsp_value(cd) {
            Ok(net) => Ok(Some(net)),
            Err(e) => Err(e),
        },
    }
}

/// Read a configuration and build its network with `weights`.
pub fn parse<S: Scalar>(config: &Json, weights: &[S]) -> (r: Result<WaveNet<S>, String>)
    requires
        lawful::<S>(),
    ensures
        match r {
            Ok(net) => net.built() && parsed(config@, weights@) == Ok::<NetModel<S>, Seq<char>>(
                net.model(),
            ),
            Err(e) => parsed(config@, weights@) == Err::<NetModel<S>, Seq<char>>(e@),
        },
    decreases *config, 1nat,
{
    let list = match parse_layer_array_specs::<S>(config) {
        Ok(v) => v,
        Err(e) => {
            return Err(e);
        },
    };
    if !check_scale(config) {
        return Err("WaveNet config missing head_scale".to_owned());
    }
    let in_channels = match read_defaulted(config.field("in_channels"), "in_channels", 1) {
        Ok(n) => n,
        Err(e) => {
            return Err(e);
        },
    };
    let head_spec = match parse_head_spec(config, &list) {
        Ok(h) => h,
        Err(e) => {
            return Err(e);
        },
    };
    let condition_dsp = match parse_condition_dsp::<S>(config) {
        Ok(c) => c,
        Err(e) => {
            return Err(e);
        },
    };
    assert(specs(list@).last() == list@.last().model());
    build(in_channels, &list, head_spec.as_ref(), condition_dsp, weights)
}

} // verus!
