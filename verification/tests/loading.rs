//! Model files that cannot be loaded, with the complaint about each, and the
//! different ways in which a file can say the same.

use neural_amp_modeler::num::{Sample, Scalar};
use neural_amp_modeler::pure::model::PureNamModel;

#[derive(Clone, Copy, Debug, PartialEq)]
struct Wide(f64);

#[derive(Clone, Copy, Debug, PartialEq)]
struct Num(f32);

impl Sample for Wide {
    fn from_bits(bits: u64) -> Wide {
        Wide(f64::from_bits(bits))
    }
    fn lt(self, other: Wide) -> bool {
        self.0 < other.0
    }
    fn le(self, other: Wide) -> bool {
        self.0 <= other.0
    }
    fn halved(self) -> isize {
        (0.5 * self.0) as isize
    }
    fn step_of(self, steps: usize) -> isize {
        (self.0 * steps as f64).floor() as isize
    }
}

impl Scalar for Num {
    type Wide = Wide;
    fn zero() -> Num {
        Num(0.0)
    }
    fn literal(digits: i64, places: u32) -> Num {
        Num((digits as f64 / 10f64.powi(places as i32)) as f32)
    }
    fn narrow(x: Wide) -> Num {
        Num(x.0 as f32)
    }
    fn widen(self) -> Wide {
        Wide(self.0 as f64)
    }
    fn add(self, other: Num) -> Num {
        Num(self.0 + other.0)
    }
    fn sub(self, other: Num) -> Num {
        Num(self.0 - other.0)
    }
    fn mul(self, other: Num) -> Num {
        Num(self.0 * other.0)
    }
    fn div(self, other: Num) -> Num {
        Num(self.0 / other.0)
    }
    fn neg(self) -> Num {
        Num(-self.0)
    }
    fn abs(self) -> Num {
        Num(self.0.abs())
    }
    fn exp(self) -> Num {
        Num(self.0.exp())
    }
    fn tanh(self) -> Num {
        Num(self.0.tanh())
    }
    fn lt(self, other: Num) -> bool {
        self.0 < other.0
    }
}

type NamModel = neural_amp_modeler::NamModel<Num>;

fn complaint(json: &str) -> String {
    match PureNamModel::<Num>::from_json(json) {
        Ok(_) => panic!("loaded: {}", json),
        Err(e) => e,
    }
}

fn loads(json: &str) -> bool {
    PureNamModel::<Num>::from_json(json).is_ok()
}

fn list(n: usize) -> String {
    let v: Vec<String> = (0..n).map(|i| format!("{}", (i % 7) as f32 * 0.125 + 0.0625)).collect();
    format!("[{}]", v.join(","))
}

/// A layer array of two channels with one layer. A network of it reads 19
/// weights.
const LAYER: &str = r#"{"input_size":1,"condition_size":1,"head_size":1,"channels":2,"kernel_size":1,"dilations":[1],"activation":"ReLU","gated":false,"head_bias":false}"#;

fn layer(from: &str, to: &str) -> String {
    assert!(LAYER.contains(from), "{}", from);
    LAYER.replace(from, to)
}

fn more(extra: &str) -> String {
    LAYER.replace("\"head_bias\":false}", &format!("\"head_bias\":false,{}}}", extra))
}

fn net(layers: &[String], extra: &str, weights: usize) -> String {
    format!(
        "{{\"version\":\"0.5.4\",\"architecture\":\"WaveNet\",\"config\":{{\"layers\":[{}],\"head_scale\":1.0{}}},\"weights\":{}}}",
        layers.join(","),
        extra,
        list(weights)
    )
}

fn one(layer: &str) -> String {
    net(&[layer.to_string()], "", 19)
}

fn recurrent(config: &str, weights: usize) -> String {
    format!(
        "{{\"architecture\":\"LSTM\",\"config\":{{{}}},\"weights\":{}}}",
        config,
        list(weights)
    )
}

/// What a model gives for an impulse, with one and with two samples per block.
fn impulse(json: &str) -> Vec<f64> {
    let mut m = PureNamModel::<Num>::from_json(json).unwrap();
    assert!(m.can_reset(8));
    m.reset(Wide(48000.0), 8);
    let input = [Wide(1.0), Wide(0.0), Wide(-0.5), Wide(0.25), Wide(0.0), Wide(0.0)];
    let mut output = [Wide(0.0); 6];
    m.process(&input, &mut output);
    output.iter().map(|v| v.0).collect()
}

// Files ======================================================================

#[test]
fn bytes_that_are_not_text() {
    let e = NamModel::from_bytes(&[0x7b, 0xff, 0x7d]).err().unwrap();
    assert_eq!(
        e,
        "Failed to load NAM model: invalid UTF-8: invalid utf-8 sequence of 1 bytes from index 1"
    );
    let e = NamModel::from_bytes(&[0x22, 0xe2, 0x82]).err().unwrap();
    assert_eq!(
        e,
        "Failed to load NAM model: invalid UTF-8: incomplete utf-8 byte sequence from index 1"
    );
}

#[test]
fn text_that_is_not_json() {
    assert_eq!(
        complaint("{\"architecture\":"),
        "invalid JSON: EOF while parsing a value at line 1 column 16"
    );
    assert_eq!(complaint("[1,]"), "invalid JSON: trailing comma at line 1 column 4");
    let e = NamModel::from_json("nope").err().unwrap();
    assert_eq!(e, "Failed to load NAM model: invalid JSON: expected ident at line 1 column 2");
}

#[test]
fn files_without_a_model() {
    assert_eq!(complaint("{}"), "model file missing 'architecture'");
    assert_eq!(complaint("[]"), "model file missing 'architecture'");
    assert_eq!(complaint("{\"architecture\":7}"), "model file missing 'architecture'");
    assert_eq!(complaint("{\"architecture\":\"WaveNet\"}"), "model file missing 'config'");
    assert_eq!(
        complaint("{\"architecture\":\"ConvNet\",\"config\":{}}"),
        "unsupported architecture for the pure-Rust engine: ConvNet"
    );
    assert_eq!(
        complaint("{\"architecture\":\"WaveNet\",\"config\":{}}"),
        "corrupted model file is missing weights"
    );
    assert_eq!(
        complaint("{\"architecture\":\"LSTM\",\"config\":{},\"weights\":{}}"),
        "corrupted model file is missing weights"
    );
}

#[test]
fn weights_that_are_not_numbers() {
    let bad = one(LAYER).replace("\"weights\":[0.0625,", "\"weights\":[\"a\\\"b\\n\",");
    assert_eq!(complaint(&bad), "non-numeric weight: \"a\\\"b\\n\"");
    let bad = one(LAYER).replace("\"weights\":[0.0625,", "\"weights\":[null,");
    assert_eq!(complaint(&bad), "non-numeric weight: null");
    let bad = one(LAYER).replace("\"weights\":[0.0625,", "\"weights\":[[true, 1.50, {\"k\": -3}],");
    assert_eq!(complaint(&bad), "non-numeric weight: [true,1.5,{\"k\":-3}]");
}

#[test]
fn weights_are_counted() {
    assert!(loads(&one(LAYER)));
    assert_eq!(
        complaint(&net(&[LAYER.to_string()], "", 18)),
        "weight underflow: model expects more than 18 weights"
    );
    assert_eq!(
        complaint(&net(&[LAYER.to_string()], "", 0)),
        "weight underflow: model expects more than 0 weights"
    );
    assert_eq!(
        complaint(&net(&[LAYER.to_string()], "", 23)),
        "weight mismatch: consumed 19 of 23 weights"
    );
}

// Layer arrays ===============================================================

#[test]
fn networks_without_layers() {
    let bad = "{\"architecture\":\"WaveNet\",\"config\":{\"head_scale\":1},\"weights\":[]}";
    assert_eq!(complaint(bad), "WaveNet config missing 'layers' array");
    let bad =
        "{\"architecture\":\"WaveNet\",\"config\":{\"layers\":null,\"head_scale\":1},\"weights\":[]}";
    assert_eq!(complaint(bad), "WaveNet config missing 'layers' array");
    assert_eq!(complaint(&net(&[], "", 1)), "WaveNet requires at least one layer array");
    let bad = one(LAYER).replace(",\"head_scale\":1.0", "");
    assert_eq!(complaint(&bad), "WaveNet config missing head_scale");
    let bad = one(LAYER).replace("\"head_scale\":1.0", "\"head_scale\":\"1\"");
    assert_eq!(complaint(&bad), "WaveNet config missing head_scale");
}

#[test]
fn sizes_that_are_missing() {
    assert_eq!(complaint(&one(&layer("\"channels\":2,", ""))), "layer array 0: missing channels");
    assert_eq!(
        complaint(&one(&layer("\"channels\":2", "\"channels\":null"))),
        "layer array 0: missing channels"
    );
    assert_eq!(
        complaint(&one(&layer("\"input_size\":1,", ""))),
        "layer array 0: missing input_size"
    );
    assert_eq!(
        complaint(&one(&layer("\"condition_size\":1,", ""))),
        "layer array 0: missing condition_size"
    );
    let second = layer("\"dilations\":[1],", "");
    assert_eq!(
        complaint(&net(&[LAYER.to_string(), second], "", 19)),
        "layer array 1: missing dilations"
    );
    assert_eq!(
        complaint(&one(&layer("\"dilations\":[1]", "\"dilations\":1"))),
        "layer array 0: missing dilations"
    );
    assert_eq!(
        complaint(&one(&layer("\"activation\":\"ReLU\",", ""))),
        "layer array 0: missing activation"
    );
}

#[test]
fn sizes_that_are_not_whole() {
    assert_eq!(
        complaint(&one(&layer("\"channels\":2", "\"channels\":2.5"))),
        "expected non-negative integer for channels, got 2.5"
    );
    assert_eq!(
        complaint(&one(&layer("\"channels\":2", "\"channels\":-2"))),
        "expected non-negative integer for channels, got -2"
    );
    assert_eq!(
        complaint(&one(&layer("\"channels\":2", "\"channels\":2.0"))),
        "expected non-negative integer for channels, got 2.0"
    );
    assert_eq!(
        complaint(&one(&layer("\"input_size\":1", "\"input_size\":[1, 2]"))),
        "expected non-negative integer for input_size, got [1,2]"
    );
    assert_eq!(
        complaint(&one(&layer("[1]", "[1,\"x\"]"))),
        "expected non-negative integer for dilation, got \"x\""
    );
    assert_eq!(
        complaint(&one(&layer("\"kernel_size\":1", "\"kernel_size\":true"))),
        "expected non-negative integer for kernel_size, got true"
    );
    assert_eq!(
        complaint(&one(&more("\"bottleneck\":{\"b\":1,\"a\":\"\\t\"}"))),
        "expected non-negative integer for bottleneck, got {\"a\":\"\\t\",\"b\":1}"
    );
    assert_eq!(
        complaint(&one(&more("\"groups_input\":0.5"))),
        "expected non-negative integer for groups_input, got 0.5"
    );
    assert_eq!(
        complaint(&one(&more("\"groups_input_mixin\":\"two\""))),
        "expected non-negative integer for groups_input_mixin, got \"two\""
    );
    assert_eq!(
        complaint(&net(&[LAYER.to_string()], ",\"in_channels\":-1", 19)),
        "expected non-negative integer for in_channels, got -1"
    );
}

#[test]
fn lists_that_do_not_match() {
    assert_eq!(
        complaint(&one(&layer("\"kernel_size\":1,", ""))),
        "layer array 0: either kernel_size or kernel_sizes must be provided"
    );
    assert_eq!(
        complaint(&one(&layer("\"kernel_size\":1", "\"kernel_sizes\":3"))),
        "layer array 0: kernel_sizes must be an array"
    );
    assert_eq!(
        complaint(&one(&layer("\"kernel_size\":1", "\"kernel_sizes\":[1,1]"))),
        "layer array 0: kernel_sizes size must match dilations size"
    );
    assert_eq!(
        complaint(&one(&layer("\"ReLU\"", "[\"ReLU\",\"Tanh\"]"))),
        "layer array 0: activation array size must match dilations size"
    );
    assert_eq!(
        complaint(&one(&more("\"gating_mode\":[\"none\",\"none\"]"))),
        "layer array 0: gating_mode array size must match dilations size"
    );
    assert_eq!(
        complaint(&one(&more("\"gating_mode\":\"half\""))),
        "layer array 0: invalid gating_mode: half"
    );
}

#[test]
fn activations_that_are_unknown() {
    assert_eq!(
        complaint(&one(&layer("\"ReLU\"", "\"Mish\""))),
        "unknown activation type: Mish"
    );
    assert_eq!(
        complaint(&one(&layer("\"ReLU\"", "{\"slope\":1}"))),
        "activation object missing 'type'"
    );
    assert_eq!(complaint(&one(&layer("\"ReLU\"", "12"))), "invalid activation config: 12");
}

#[test]
fn heads_that_are_missing() {
    assert_eq!(
        complaint(&one(&layer("\"head_size\":1,", ""))),
        "layer array 0: expected 'head' object or legacy 'head_size'/'head_bias'"
    );
    assert_eq!(
        complaint(&one(&layer("\"head_bias\":false", "\"head_bias\":0"))),
        "layer array 0: missing head_bias"
    );
    assert_eq!(
        complaint(&one(&more("\"head\":true"))),
        "layer array 0: 'head' must be a JSON object"
    );
    assert_eq!(
        complaint(&one(&more("\"head\":{}"))),
        "layer array 0: head missing out_channels"
    );
    assert_eq!(
        complaint(&one(&more("\"head\":{\"out_channels\":1}"))),
        "layer array 0: head missing kernel_size"
    );
    assert_eq!(
        complaint(&one(&more("\"head\":{\"out_channels\":1,\"kernel_size\":1}"))),
        "layer array 0: head missing bias"
    );
    assert_eq!(
        complaint(&one(&more(
            "\"head\":{\"out_channels\":1,\"kernel_size\":1,\"bias\":false,\"head_dilation\":\"x\"}"
        ))),
        "expected non-negative integer for head.head_dilation, got \"x\""
    );
}

#[test]
fn layers_that_do_not_fit() {
    assert_eq!(
        complaint(&one(&more("\"groups_input\":3"))),
        "Conv1D: channels (2 in / 2 out) must divide evenly by groups (3)"
    );
    assert_eq!(
        complaint(&one(&more("\"groups_input_mixin\":2"))),
        "Conv1x1: channels (1 in / 2 out) must divide evenly by groups (2)"
    );
    assert_eq!(
        complaint(&one(&more("\"groups_input\":0"))),
        "Conv1D: channels (2 in / 2 out) must divide evenly by groups (0)"
    );
    assert_eq!(
        complaint(&one(&layer("\"kernel_size\":1", "\"kernel_size\":0"))),
        "Conv1D: kernel_size and dilation must be >= 1"
    );
    assert_eq!(
        complaint(&one(&layer("[1]", "[0]"))),
        "Conv1D: kernel_size and dilation must be >= 1"
    );
    assert_eq!(
        complaint(&one(&more("\"layer1x1\":{\"active\":false},\"bottleneck\":1"))),
        "layer array 0: when layer1x1 is inactive, bottleneck must equal channels"
    );
    assert_eq!(
        complaint(&one(&more("\"layer1x1\":{\"active\":false},\"layer1x1_post_film\":{}"))),
        "layer array 0: layer1x1_post_film cannot be active when layer1x1 is not active"
    );
    assert_eq!(
        complaint(&one(&more("\"head1x1_post_film\":{}"))),
        "layer array 0: head1x1_post_film cannot be active when head1x1 is not active"
    );
    assert_eq!(
        complaint(&one(&more("\"conv_pre_film\":true"))),
        "layer array 0: 'conv_pre_film' must be an object or false"
    );
    assert_eq!(
        complaint(&one(&more("\"conv_post_film\":{\"groups\":-1}"))),
        "expected non-negative integer for conv_post_film.groups, got -1"
    );
}

#[test]
fn sizes_that_are_too_large() {
    assert_eq!(
        complaint(&one(&layer("\"channels\":2", "\"channels\":18446744073709551615"))),
        "model dimensions are too large"
    );
    assert_eq!(
        complaint(&recurrent("\"num_layers\":1,\"input_size\":1,\"hidden_size\":9223372036854775807", 3)),
        "model dimensions are too large"
    );
}

#[test]
fn stacks_that_do_not_chain() {
    let first = layer("\"head_size\":1", "\"head_size\":3");
    let second = layer("\"input_size\":1", "\"input_size\":2");
    assert_eq!(
        complaint(&net(&[first, second], "", 19)),
        "layer array 1: head chaining size mismatch: previous head_size 3 vs head accumulator 2"
    );
}

// Heads and conditions =======================================================

#[test]
fn post_heads_that_do_not_fit() {
    let bad = |head: &str| complaint(&net(&[LAYER.to_string()], &format!(",\"head\":{}", head), 19));
    assert_eq!(
        bad("{\"in_channels\":2}"),
        "WaveNet head.in_channels must equal last layer's head_size"
    );
    assert_eq!(bad("{}"), "head missing channels");
    assert_eq!(bad("{\"channels\":2}"), "head missing out_channels");
    assert_eq!(bad("{\"channels\":2,\"out_channels\":1}"), "head missing kernel_sizes");
    assert_eq!(
        bad("{\"channels\":2,\"out_channels\":1,\"kernel_sizes\":[]}"),
        "head.kernel_sizes must be non-empty"
    );
    assert_eq!(
        bad("{\"channels\":2,\"out_channels\":1,\"kernel_sizes\":[\"3\"]}"),
        "expected non-negative integer for head kernel_size, got \"3\""
    );
    assert_eq!(
        bad("{\"channels\":2,\"out_channels\":1,\"kernel_sizes\":[3]}"),
        "head missing activation"
    );
    assert_eq!(
        bad("{\"channels\":2,\"out_channels\":1,\"kernel_sizes\":[0],\"activation\":\"ReLU\"}"),
        "Conv1D: kernel_size and dilation must be >= 1"
    );
    assert_eq!(
        bad("{\"channels\":\"2\"}"),
        "expected non-negative integer for head.channels, got \"2\""
    );
    // One convolution from one channel to one, with three taps and a bias.
    let good = "{\"channels\":2,\"out_channels\":1,\"kernel_sizes\":[3],\"activation\":\"ReLU\"}";
    assert!(loads(&net(&[LAYER.to_string()], &format!(",\"head\":{}", good), 23)));
    assert!(loads(&net(&[LAYER.to_string()], ",\"head\":null", 19)));
}

#[test]
fn conditions_that_do_not_fit() {
    let with = |cd: &str| net(&[LAYER.to_string()], &format!(",\"condition_dsp\":{}", cd), 19);
    assert_eq!(complaint(&with("{}")), "condition_dsp missing 'architecture'");
    assert_eq!(
        complaint(&with("{\"architecture\":\"LSTM\"}")),
        "condition_dsp architecture 'LSTM' is not supported by the pure-Rust engine"
    );
    assert_eq!(
        complaint(&with("{\"architecture\":\"WaveNet\"}")),
        "condition_dsp missing 'config'"
    );
    assert!(loads(&with(&one(LAYER))));
    let wide = net(&[layer("\"input_size\":1", "\"input_size\":2")], ",\"in_channels\":2", 21);
    assert_eq!(
        complaint(&with(&wide)),
        "input channels of WaveNet (1) don't match input channels of condition DSP (2)"
    );
    let two = net(&[layer("\"head_size\":1", "\"head_size\":2")], "", 21);
    assert_eq!(
        complaint(&with(&two)),
        "condition_size of layer array 0 (1) doesn't match output channels of condition DSP (2)"
    );
    assert_eq!(
        complaint(&with(&net(&[LAYER.to_string()], "", 20))),
        "weight mismatch: consumed 19 of 20 weights"
    );
}

// Networks that can be reduced ===============================================

fn slim(layer: &str, slimmable: &str) -> String {
    layer.replace(
        "\"head_bias\":false}",
        &format!("\"head_bias\":false,\"slimmable\":{}}}", slimmable),
    )
}

const UNIFORM: &str = "{\"method\":\"slice_channels_uniform\",\"kwargs\":{\"allowed_channels\":[1,2]}}";

#[test]
fn sizes_that_are_refused() {
    let bad = |s: &str| complaint(&one(&slim(LAYER, s)));
    assert_eq!(
        bad("{\"method\":\"prune\"}"),
        "SlimmableWavenet: unsupported slimmable method 'prune'"
    );
    let uniform = |sizes: &str| UNIFORM.replace("[1,2]", sizes);
    assert_eq!(
        bad(&uniform("[2,1]")),
        "SlimmableWavenet: allowed_channels must be sorted ascending"
    );
    assert_eq!(
        bad(&uniform("[1,1,2]")),
        "SlimmableWavenet: allowed_channels must be sorted ascending"
    );
    let last = "SlimmableWavenet: last allowed_channels entry must equal the full channel count for that array";
    assert_eq!(bad(&uniform("[1]")), last);
    assert_eq!(bad(&uniform("[]")), last);
    assert_eq!(
        bad(&uniform("[1,\"2\"]")),
        "expected non-negative integer for allowed_channels entry, got \"2\""
    );
    assert!(loads(&one(&slim(LAYER, UNIFORM))));
    assert!(loads(&one(&slim(LAYER, "{\"method\":\"slice_channels_uniform\"}"))));
    assert!(loads(&one(&slim(LAYER, "{\"method\":\"\"}"))));
    assert!(loads(&one(&slim(LAYER, "null"))));
}

#[test]
fn one_stack_that_is_sliced_is_enough() {
    let first = |s: &str| slim(&layer("\"head_size\":1", "\"head_size\":2"), s);
    let second = |s: &str| slim(&layer("\"input_size\":1", "\"input_size\":2"), s);
    let other = "{\"method\":\"prune\"}";
    let two = |a: &str, b: &str| net(&[first(a), second(b)], "", 41);
    // A stack with another method keeps its channels.
    for text in [two(other, UNIFORM), two(UNIFORM, other)] {
        let mut m = PureNamModel::<Num>::from_json(&text).unwrap();
        assert!(m.set_slimmable_size(Wide(0.5)));
    }
    assert_eq!(
        complaint(&two("{\"method\":\"\"}", other)),
        "SlimmableWavenet: unsupported slimmable method 'prune'"
    );
    assert_eq!(
        complaint(&two("{\"method\":\"drop\"}", other)),
        "SlimmableWavenet: unsupported slimmable method 'drop'"
    );
    let plain = PureNamModel::<Num>::from_json(&two("null", "null")).unwrap();
    assert!(!{ plain }.set_slimmable_size(Wide(0.5)));
}

#[test]
fn networks_that_cannot_be_reduced() {
    let bad = |l: &str| complaint(&one(&slim(l, UNIFORM)));
    assert_eq!(
        bad(&more("\"head\":{\"out_channels\":1,\"kernel_size\":2,\"bias\":false}").replace(
            "\"bias\":false}}",
            "\"bias\":false},\"head_bias\":false}"
        )),
        "SlimmableWavenet: head rechannel kernel_size must be 1 (slimming with head kernel_size > 1 is not implemented)"
    );
    let grouped = |extra: &str| {
        LAYER.replace("\"gated\":false,", &format!("\"gated\":false,{},", extra))
    };
    assert_eq!(
        bad(&grouped("\"groups_input\":2")),
        "SlimmableWavenet: groups_input > 1 not supported"
    );
    assert_eq!(
        bad(&grouped("\"groups_input_mixin\":2")),
        "SlimmableWavenet: groups_input_mixin > 1 not supported"
    );
    assert_eq!(
        bad(&grouped("\"layer1x1\":{\"groups\":2}")),
        "SlimmableWavenet: layer1x1 groups > 1 not supported"
    );
    assert_eq!(
        bad(&grouped("\"head1x1\":{\"active\":true,\"groups\":2}")),
        "SlimmableWavenet: head1x1 groups > 1 not supported"
    );
    assert_eq!(
        bad(&grouped("\"conv_pre_film\":{\"groups\":2}")),
        "SlimmableWavenet: FiLM groups > 1 not supported"
    );
    let headed = net(
        &[slim(LAYER, UNIFORM)],
        ",\"head\":{\"channels\":2,\"out_channels\":1,\"kernel_sizes\":[3],\"activation\":\"ReLU\"}",
        23,
    );
    assert_eq!(complaint(&headed), "SlimmableWavenet: post-stack head is not supported");
    assert_eq!(
        complaint(&net(&[slim(LAYER, UNIFORM)], "", 18)),
        "weight underflow: model expects more than 18 weights"
    );
}

// Containers =================================================================

fn container(subs: &str) -> String {
    format!(
        "{{\"architecture\":\"SlimmableContainer\",\"config\":{{\"submodels\":{}}},\"weights\":[]}}",
        subs
    )
}

#[test]
fn containers_that_are_refused() {
    let empty = "SlimmableContainer: 'submodels' must be a non-empty array";
    assert_eq!(complaint(&container("[]")), empty);
    assert_eq!(complaint(&container("{}")), empty);
    assert_eq!(
        complaint(&container("[{}]")),
        "SlimmableContainer submodel missing max_value"
    );
    assert_eq!(
        complaint(&container("[{\"max_value\":0.5}]")),
        "SlimmableContainer submodel missing model"
    );
    let m = one(LAYER);
    let two = |a: &str, b: &str| {
        container(&format!(
            "[{{\"max_value\":{},\"model\":{}}},{{\"max_value\":{},\"model\":{}}}]",
            a, m, b, m
        ))
    };
    let order = "SlimmableContainer: submodels must be sorted by ascending max_value";
    assert_eq!(complaint(&two("0.5", "0.5")), order);
    assert_eq!(complaint(&two("0.5", "0.25")), order);
    assert!(loads(&two("0.5", "1")));
    assert_eq!(
        complaint(&container("[{\"max_value\":1,\"model\":{\"architecture\":\"X\",\"config\":0}}]")),
        "unsupported architecture for the pure-Rust engine: X"
    );
}

// Recurrent networks =========================================================

#[test]
fn recurrent_networks_that_are_refused() {
    assert_eq!(complaint(&recurrent("", 0)), "LSTM config missing 'num_layers'");
    assert_eq!(
        complaint(&recurrent("\"num_layers\":1", 0)),
        "LSTM config missing 'input_size'"
    );
    assert_eq!(
        complaint(&recurrent("\"num_layers\":1,\"input_size\":1,\"hidden_size\":-1", 0)),
        "LSTM config missing 'hidden_size'"
    );
    let sized = |layers: usize| {
        format!("\"num_layers\":{},\"input_size\":1,\"hidden_size\":1", layers)
    };
    assert_eq!(complaint(&recurrent(&sized(0), 0)), "LSTM requires at least one layer");
    // A cell of one number reads 14 weights, the head two.
    assert!(loads(&recurrent(&sized(1), 16)));
    assert_eq!(
        complaint(&recurrent(&sized(1), 15)),
        "weight underflow: model expects more than 15 weights"
    );
    assert_eq!(
        complaint(&recurrent(&sized(1), 18)),
        "weight mismatch: consumed 16 of 18 weights"
    );
}

// The same said in different ways ============================================

#[test]
fn one_value_stands_for_all_layers() {
    let short = LAYER.replace("[1]", "[1,2]");
    let long = short
        .replace("\"kernel_size\":1", "\"kernel_sizes\":[1,1]")
        .replace("\"ReLU\"", "[\"ReLU\",{\"type\":\"ReLU\"}]")
        .replace("\"gated\":false", "\"gating_mode\":[\"none\",\"none\"]");
    let a = impulse(&net(&[short], "", 33));
    let b = impulse(&net(&[long], "", 33));
    assert_eq!(a, b);
    assert!(a.iter().any(|v| *v != 0.0));
}

#[test]
fn legacy_gating_is_gating() {
    let legacy = LAYER.replace("\"gated\":false", "\"gated\":true");
    let modern = LAYER.replace("\"gated\":false", "\"gating_mode\":\"gated\"");
    let a = impulse(&net(&[legacy], "", 27));
    let b = impulse(&net(&[modern], "", 27));
    assert_eq!(a, b);
    assert!(a.iter().any(|v| *v != 0.0));
}

#[test]
fn legacy_heads_are_heads() {
    let modern = LAYER
        .replace("\"head_size\":1,", "")
        .replace(
            "\"head_bias\":false",
            "\"head\":{\"out_channels\":1,\"kernel_size\":1,\"bias\":false}",
        );
    assert_eq!(impulse(&one(LAYER)), impulse(&one(&modern)));
}

#[test]
fn null_is_nothing() {
    let said = more("\"bottleneck\":null,\"groups_input\":null,\"layer1x1\":null,\"conv_pre_film\":null");
    assert_eq!(impulse(&one(LAYER)), impulse(&one(&said)));
}

#[test]
fn text_and_bytes_say_the_same() {
    let text = one(LAYER);
    let mut a = NamModel::from_json(&text).ok().unwrap();
    let mut b = NamModel::from_bytes(text.as_bytes()).ok().unwrap();
    let input = [Wide(0.5), Wide(-0.25), Wide(1.0)];
    let mut x = [Wide(0.0); 3];
    let mut y = [Wide(0.0); 3];
    a.process(&input, &mut x);
    b.process(&input, &mut y);
    assert_eq!(x, y);
    assert!(x[0].0 != 0.0);
}

#[test]
fn metadata_is_what_the_file_says() {
    let text = one(LAYER).replace(
        "\"version\":\"0.5.4\"",
        "\"sample_rate\":44100,\"metadata\":{\"loudness\":-18.5,\"input_level_dbu\":12,\"output_level_dbu\":\"loud\"}",
    );
    let m = NamModel::from_json(&text).ok().unwrap().metadata();
    assert_eq!(m.expected_sample_rate, Some(Wide(44100.0)));
    assert_eq!(m.loudness, Some(Wide(-18.5)));
    assert_eq!(m.input_level, Some(Wide(12.0)));
    assert_eq!(m.output_level, None);
    assert_eq!((m.input_channels, m.output_channels), (1, 1));

    let m = NamModel::from_json(&one(LAYER)).ok().unwrap();
    assert_eq!(m.expected_sample_rate(), None);
    assert_eq!(m.loudness(), None);
    let negative = one(LAYER).replace("\"version\":\"0.5.4\"", "\"sample_rate\":-1.0");
    assert_eq!(NamModel::from_json(&negative).ok().unwrap().expected_sample_rate(), None);
    let zero = one(LAYER).replace("\"version\":\"0.5.4\"", "\"sample_rate\":0");
    assert_eq!(
        NamModel::from_json(&zero).ok().unwrap().expected_sample_rate(),
        Some(Wide(0.0))
    );
}
