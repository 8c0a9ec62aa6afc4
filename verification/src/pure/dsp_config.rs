//! Reading a model file.

use crate::json::{lemma_get_smaller, same_text, trees, Json, Tree};
use crate::num::{lawful, Sample, Scalar};
use crate::pure::dsp::{Dsp, DspModel};
use crate::pure::lstm::{lstm_of, self};
use crate::pure::net_config::{parse, parse_weights, parsed, weights_of};
use crate::pure::slim::{full_channels, parse_slimmable, slim_parsed};
use crate::pure::slim_config::{config_is_slimmable, slimmable_of};
use crate::text::glue;
use vstd::prelude::*;
use vstd::string::*;

verus! {

/// The bit pattern of minus one in binary64.
pub const MINUS_ONE_BITS: u64 = 0xBFF0_0000_0000_0000;

/// The bit pattern of minus infinity in binary64.
pub const MINUS_INFINITY_BITS: u64 = 0xFFF0_0000_0000_0000;

/// A number under a key.
pub open spec fn real_at<D: Sample>(v: Tree, key: Seq<char>) -> Option<D> {
    match v.get(key) {
        Some(x) => match x.as_real() {
            Some(bits) => Some(D::from_bits_spec(bits)),
            None => None,
        },
        None => None,
    }
}

/// Read a number under a key.
pub fn read_real<S: Scalar>(v: &Json, key: &str) -> (r: Option<S::Wide>)
    requires
        lawful::<S>(),
    ensures
        r == real_at::<S::Wide>(v@, key@),
{
    match v.get(key) {
        Some(x) => match x.as_real() {
            Some(bits) => Some(S::Wide::from_bits(bits)),
            None => None,
        },
        None => None,
    }
}

/// A network, which may be one that can be reduced.
pub open spec fn wavenet_of<S: Scalar>(value: Tree, config: Tree) -> Result<
    DspModel<S>,
    Seq<char>,
> {
    match weights_of::<S>(value) {
        Err(e) => Err(e),
        Ok(data) => match slimmable_of(config) {
            Err(e) => Err(e),
            Ok(slim) => if slim {
                match slim_parsed(config, data) {
                    Err(e) => Err(e),
                    Ok((m, net)) => Ok(DspModel::Slim(m, full_channels(m.arrays), net)),
                }
            } else {
                match parsed(config, data) {
                    Err(e) => Err(e),
                    Ok(net) => Ok(DspModel::Net(net)),
                }
            },
        },
    }
}

/// A recurrent network.
pub open spec fn recurrent_of<S: Scalar>(value: Tree, config: Tree) -> Result<
    DspModel<S>,
    Seq<char>,
> {
    match weights_of::<S>(value) {
        Err(e) => Err(e),
        Ok(data) => {
            let rate = match real_at::<S::Wide>(value, "sample_rate"@) {
                Some(sr) => sr,
                None => S::Wide::from_bits_spec(MINUS_ONE_BITS),
            };
            match lstm_of(config, data, rate) {
                Err(e) => Err(e),
                Ok(m) => Ok(DspModel::Lstm(m)),
            }
        },
    }
}

/// The models of a container.
pub open spec fn submodels_of(config: Tree) -> Option<Seq<Tree>> {
    match config.get("submodels"@) {
        Some(Tree::Array(items)) => if items.len() == 0 {
            None
        } else {
            Some(items)
        },
        _ => None,
    }
}

/// The model of a model file.
pub open spec fn dsp_of<S: Scalar>(value: Tree) -> Result<DspModel<S>, Seq<char>>
    decreases value, 0nat,
{
    match value.get("architecture"@) {
        Some(Tree::Text(arch)) => match value.get("config"@) {
            None => Err("model file missing 'config'"@),
            Some(config) => if arch == "WaveNet"@ {
                wavenet_of(value, config)
            } else if arch == "LSTM"@ {
                recurrent_of(value, config)
            } else if arch == "SlimmableContainer"@ {
                match submodels_of(config) {
                    None => Err("SlimmableContainer: 'submodels' must be a non-empty array"@),
                    Some(items) => {
                        proof {
                            lemma_submodels_smaller(value, config, items);
                        }
                        match subs_of::<S>(items, items.len()) {
                            Err(e) => Err(e),
                            Ok(subs) => Ok(
                                DspModel::Container(subs, (subs.len() - 1) as nat),
                            ),
                        }
                    },
                }
            } else {
                Err("unsupported architecture for the pure-Rust engine: "@ + arch)
            },
        },
        _ => Err("model file missing 'architecture'"@),
    }
}

/// The first `k` models of a container with their bounds, which ascend.
pub open spec fn subs_of<S: Scalar>(items: Seq<Tree>, k: nat) -> Result<
    Seq<(S::Wide, DspModel<S>)>,
    Seq<char>,
>
    decreases items, k,
{
    if k == 0 || k > items.len() {
        Ok(Seq::empty())
    } else {
        match subs_of::<S>(items, (k - 1) as nat) {
            Err(e) => Err(e),
            Ok(before) => {
                let entry = items[k - 1];
                match real_at::<S::Wide>(entry, "max_value"@) {
                    None => Err("SlimmableContainer submodel missing max_value"@),
                    Some(bound) => if bound.le_spec(last_bound::<S>(before)) {
                        Err(
                            "SlimmableContainer: submodels must be sorted by ascending max_value"@,
                        )
                    } else {
                        match entry.get("model"@) {
                            None => Err("SlimmableContainer submodel missing model"@),
                            Some(model) => {
                                proof {
                                    lemma_get_smaller(entry, "model"@);
                                    assert(decreases_to!(items => items[k - 1]));
                                }
                                match dsp_of::<S>(model) {
                                    Err(e) => Err(e),
                                    Ok(m) => Ok(before.push((bound, m))),
                                }
                            },
                        }
                    },
                }
            },
        }
    }
}

/// The bound that the next one has to be above.
pub open spec fn last_bound<S: Scalar>(before: Seq<(S::Wide, DspModel<S>)>) -> S::Wide {
    if before.len() == 0 {
        S::Wide::from_bits_spec(MINUS_INFINITY_BITS)
    } else {
        before.last().0
    }
}

/// The models of a container are smaller than the model file.
pub proof fn lemma_submodels_smaller(value: Tree, config: Tree, items: Seq<Tree>)
    requires
        value.get("config"@) == Some(config),
        submodels_of(config) == Some(items),
    ensures
        decreases_to!(value => items),
{
    lemma_get_smaller(value, "config"@);
    lemma_get_smaller(config, "submodels"@);
    let list = config.get("submodels"@)->0;
    assert(decreases_to!(list => list->Array_0));
}

/// The models after one that cannot be read do not matter.
proof fn lemma_subs_stop<S: Scalar>(items: Seq<Tree>, j: nat, k: nat)
    requires
        j <= k <= items.len(),
        subs_of::<S>(items, j) is Err,
    ensures
        subs_of::<S>(items, k) == subs_of::<S>(items, j),
    decreases k - j,
{
    if j < k {
        lemma_subs_stop::<S>(items, j, (k - 1) as nat);
    }
}

/// The contents of models with their bounds.
pub open spec fn sub_models<S: Scalar>(subs: Seq<(S::Wide, Box<Dsp<S>>)>) -> Seq<
    (S::Wide, DspModel<S>),
> {
    Seq::new(subs.len(), |i: int| (subs[i].0, subs[i].1.model()))
}

fn build_wavenet<S: Scalar>(value: &Json, config: &Json) -> (r: Result<Dsp<S>, String>)
    requires
        lawful::<S>(),
    ensures
        match r {
            Ok(d) => d.wf() && wavenet_of::<S>(value@, config@) == Ok::<DspModel<S>, Seq<char>>(
                d.model(),
            ),
            Err(e) => wavenet_of::<S>(value@, config@) == Err::<DspModel<S>, Seq<char>>(e@),
        },
{
    let weights = match parse_weights::<S>(value) {
        Ok(v) => v,
        Err(e) => {
            return Err(e);
        },
    };
    match config_is_slimmable(config) {
        Err(e) => Err(e),
        Ok(slim) => if slim {
            match parse_slimmable(config, weights.as_slice()) {
                Ok(s) => Ok(Dsp::SlimmableWaveNet(Box::new(s))),
                Err(e) => Err(e),
            }
        } else {
            match parse(config, weights.as_slice()) {
                Ok(w) => Ok(Dsp::WaveNet(w)),
                Err(e) => Err(e),
            }
        },
    }
}

fn build_recurrent<S: Scalar>(value: &Json, config: &Json) -> (r: Result<Dsp<S>, String>)
    requires
        lawful::<S>(),
    ensures
        match r {
            Ok(d) => d.wf() && recurrent_of::<S>(value@, config@) == Ok::<DspModel<S>, Seq<char>>(
                d.model(),
            ),
            Err(e) => recurrent_of::<S>(value@, config@) == Err::<DspModel<S>, Seq<char>>(e@),
        },
{
    let weights = match parse_weights::<S>(value) {
        Ok(v) => v,
        Err(e) => {
            return Err(e);
        },
    };
    let rate = match read_real::<S>(value, "sample_rate") {
        Some(sr) => sr,
        None => S::Wide::from_bits(MINUS_ONE_BITS),
    };
    match lstm::parse(config, weights.as_slice(), rate) {
        Ok(l) => Ok(Dsp::Lstm(l)),
        Err(e) => Err(e),
    }
}

/// Build the models of a container.
fn build_subs<S: Scalar>(items: &Vec<Json>) -> (r: Result<Vec<(S::Wide, Box<Dsp<S>>)>, String>)
    requires
        lawful::<S>(),
    ensures
        match r {
            Ok(v) => {
                &&& v@.len() == items@.len()
                &&& forall|i: int| 0 <= i < v@.len() ==> (#[trigger] v@[i]).1.wf()
                &&& subs_of::<S>(trees(items@), items@.len()) == Ok::<
                    Seq<(S::Wide, DspModel<S>)>,
                    Seq<char>,
                >(sub_models(v@))
            },
            Err(e) => subs_of::<S>(trees(items@), items@.len()) == Err::<
                Seq<(S::Wide, DspModel<S>)>,
                Seq<char>,
            >(e@),
        },
    decreases *items, 0nat,
{
    let ghost all = trees(items@);
    let mut subs: Vec<(S::Wide, Box<Dsp<S>>)> = Vec::new();
    let mut prev = S::Wide::from_bits(MINUS_INFINITY_BITS);
    let mut i: usize = 0;
    assert(sub_models(subs@) =~= Seq::<(S::Wide, DspModel<S>)>::empty());
    while i < items.len()
        invariant
            lawful::<S>(),
            i <= items@.len(),
            all == trees(items@),
            subs@.len() == i,
            forall|j: int| 0 <= j < i ==> (#[trigger] subs@[j]).1.wf(),
            subs_of::<S>(all, i as nat) == Ok::<Seq<(S::Wide, DspModel<S>)>, Seq<char>>(
                sub_models(subs@),
            ),
            prev == last_bound::<S>(sub_models(subs@)),
        decreases items@.len() - i,
    {
        let ghost was = sub_models(subs@);
        let ghost k = (i + 1) as nat;
        proof {
            assert(all[i as int] == items@[i as int]@);
            assert(decreases_to!(*items => items@));
            assert(decreases_to!(items@ => items@[i as int]));
            if subs_of::<S>(all, k) is Err {
                lemma_subs_stop::<S>(all, k, items@.len());
            }
        }
        let entry = &items[i];
        let bound = match read_real::<S>(entry, "max_value") {
            Some(b) => b,
            None => {
                return Err("SlimmableContainer submodel missing max_value".to_owned());
            },
        };
        if bound.le(prev) {
            return Err(
                "SlimmableContainer: submodels must be sorted by ascending max_value".to_owned(),
            );
        }
        prev = bound;
        let model = match entry.get("model") {
            Some(m) => m,
            None => {
                return Err("SlimmableContainer submodel missing model".to_owned());
            },
        };
        match build_dsp::<S>(model) {
            Ok(d) => {
                let ghost added = (bound, d.model());
                subs.push((bound, Box::new(d)));
                assert(sub_models(subs@) =~= was.push(added));
            },
            Err(e) => {
                return Err(e);
            },
        }
        i += 1;
    }
    Ok(subs)
}

/// Build the model of a model file.
pub fn build_dsp<S: Scalar>(value: &Json) -> (r: Result<Dsp<S>, String>)
    requires
        lawful::<S>(),
    ensures
        match r {
            Ok(d) => d.wf() && dsp_of::<S>(value@) == Ok::<DspModel<S>, Seq<char>>(d.model()),
            Err(e) => dsp_of::<S>(value@) == Err::<DspModel<S>, Seq<char>>(e@),
        },
    decreases *value, 1nat,
{
    let arch: &str = match value.get("architecture") {
        Some(v) => match v.as_str() {
            Some(s) => s,
            None => {
                return Err("model file missing 'architecture'".to_owned());
            },
        },
        None => {
            return Err("model file missing 'architecture'".to_owned());
        },
    };
    let config = match value.get("config") {
        Some(v) => v,
        None => {
            return Err("model file missing 'config'".to_owned());
        },
    };
    if same_text(arch, "WaveNet") {
        return build_wavenet(value, config);
    }
    if same_text(arch, "LSTM") {
        return build_recurrent(value, config);
    }
    if same_text(arch, "SlimmableContainer") {
        if let Some(v) = config.get("submodels") {
            if let Some(items) = v.as_array() {
                if items.len() > 0 {
                    return match build_subs::<S>(items) {
                        Ok(subs) => {
                            let active = subs.len() - 1;
                            let ghost list = sub_models(subs@);
                            let d = Dsp::Container { subs, active };
                            assert(d.model()->Container_0 =~= list);
                            Ok(d)
                        },
                        Err(e) => Err(e),
                    };
                }
            }
        }
        return Err("SlimmableContainer: 'submodels' must be a non-empty array".to_owned());
    }
    Err(glue("unsupported architecture for the pure-Rust engine: ", arch))
}

} // verus!
