//! The parts of the engine on small numbers, each with its exact result.

use neural_amp_modeler::json::read_json;
use neural_amp_modeler::num::{Sample, Scalar};
use neural_amp_modeler::pure::activations::{fast_tanh, sigmoid, Activation};
use neural_amp_modeler::pure::array_config::{parse_layer_array_spec, LayerArraySpec};
use neural_amp_modeler::pure::assemble::build_layer_array;
use neural_amp_modeler::pure::conv1d::Conv1D;
use neural_amp_modeler::pure::film::Film;
use neural_amp_modeler::pure::layer::GatingMode;
use neural_amp_modeler::pure::lstm::LstmCell;
use neural_amp_modeler::pure::mat::Mat;
use neural_amp_modeler::pure::nn::{Conv1x1, Weights};
use neural_amp_modeler::pure::slim::parse_slimmable;
use neural_amp_modeler::pure::slim_weights::extract_slimmed_weights;
use neural_amp_modeler::pure::PureNamModel;
use neural_amp_modeler::render::with_json;

#[derive(Clone, Copy, Debug, PartialEq)]
struct Wide(f64);

#[derive(Clone, Copy, Debug, PartialEq)]
struct Num(f32);

impl Sample for Wide {
    fn from_bits(bits: u64) -> Wide {
        Wide(f64::from_bits(bits))
    }
    fn lt(self, other: Wide) -> bool {
        self.0 < other.0
    }
    fn le(self, other: Wide) -> bool {
        self.0 <= other.0
    }
    fn halved(self) -> isize {
        (0.5 * self.0) as isize
    }
    fn step_of(self, steps: usize) -> isize {
        (self.0 * steps as f64).floor() as isize
    }
}

impl Scalar for Num {
    type Wide = Wide;
    fn zero() -> Num {
        Num(0.0)
    }
    fn literal(digits: i64, places: u32) -> Num {
        Num((digits as f64 / 10f64.powi(places as i32)) as f32)
    }
    fn narrow(x: Wide) -> Num {
        Num(x.0 as f32)
    }
    fn widen(self) -> Wide {
        Wide(self.0 as f64)
    }
    fn add(self, other: Num) -> Num {
        Num(self.0 + other.0)
    }
    fn sub(self, other: Num) -> Num {
        Num(self.0 - other.0)
    }
    fn mul(self, other: Num) -> Num {
        Num(self.0 * other.0)
    }
    fn div(self, other: Num) -> Num {
        Num(self.0 / other.0)
    }
    fn neg(self) -> Num {
        Num(-self.0)
    }
    fn abs(self) -> Num {
        Num(self.0.abs())
    }
    fn exp(self) -> Num {
        Num(self.0.exp())
    }
    fn tanh(self) -> Num {
        Num(self.0.tanh())
    }
    fn lt(self, other: Num) -> bool {
        self.0 < other.0
    }
}

fn nums(v: &[f32]) -> Vec<Num> {
    v.iter().map(|&x| Num(x)).collect()
}

fn mat(cols: &[&[f32]]) -> Mat<Num> {
    let mut m = Mat::new(cols[0].len(), cols.len());
    for (c, col) in cols.iter().enumerate() {
        m.put_col(c, &nums(col));
    }
    m
}

fn col(m: &Mat<Num>, c: usize) -> Vec<f32> {
    m.col(c).iter().map(|v| v.0).collect()
}

fn activation(json: &str) -> Activation<Num> {
    Activation::from_json(&read_json(json).unwrap()).unwrap()
}

fn at(a: &Activation<Num>, x: f32) -> f32 {
    a.scalar(Num(x), 0).0
}

// Activations ================================================================

#[test]
fn activation_values() {
    assert_eq!(at(&activation("\"Tanh\""), 0.5), 0.5f32.tanh());
    assert_eq!(at(&activation("\"Hardtanh\""), 0.5), 0.5);
    assert_eq!(at(&activation("\"Hardtanh\""), 1.5), 1.0);
    assert_eq!(at(&activation("\"Hardtanh\""), -7.0), -1.0);
    assert_eq!(at(&activation("\"ReLU\""), 2.0), 2.0);
    assert_eq!(at(&activation("\"ReLU\""), -2.0), 0.0);
    assert_eq!(at(&activation("\"LeakyReLU\""), -2.0), 0.01f32 * -2.0);
    assert_eq!(
        at(&activation("{\"type\":\"LeakyReLU\",\"negative_slope\":0.25}"), -2.0),
        -0.5
    );
    assert_eq!(at(&activation("\"Sigmoid\""), 0.0), 0.5);
    assert_eq!(at(&activation("\"Sigmoid\""), 2.0), 1.0 / (1.0 + (-2.0f32).exp()));
    assert_eq!(at(&activation("\"SiLU\""), 2.0), 2.0 * (1.0 / (1.0 + (-2.0f32).exp())));
    assert_eq!(at(&activation("\"Hardswish\""), -4.0), 0.0);
    assert_eq!(at(&activation("\"Hardswish\""), 1.0), 4.0 * (1.0f32 / 6.0));
    assert_eq!(at(&activation("\"Hardswish\""), 4.0), 24.0 * (1.0f32 / 6.0));
    assert_eq!(at(&activation("\"Softsign\""), -3.0), -0.75);
    assert_eq!(at(&activation("\"LeakyHardtanh\""), 3.0), 2.0 * 0.01f32 + 1.0);
    assert_eq!(at(&activation("\"LeakyHardTanh\""), 0.25), 0.25);
    assert_eq!(
        at(
            &activation(
                "{\"type\":\"LeakyHardtanh\",\"min_val\":-2,\"max_val\":2,\"min_slope\":0.5,\"max_slope\":0.25}"
            ),
            -4.0
        ),
        -3.0
    );
}

#[test]
fn activation_helpers() {
    assert_eq!(sigmoid(Num(0.0)), Num(0.5));
    let x = 0.5f32;
    let want = (x * (2.455_507_5 + 2.455_507_5 * x + (0.893_229_9 + 0.821_226_7 * x) * (x * x)))
        / (2.445_066_3 + (2.445_066_3 + x * x) * (x + 0.814_642_7 * x * x).abs());
    assert_eq!(fast_tanh(Num(x)), Num(want));
    assert_eq!(activation("\"Fasttanh\"").scalar(Num(x), 5), Num(want));
}

#[test]
fn slopes_follow_the_place() {
    let a = activation("{\"type\":\"PReLU\",\"negative_slopes\":[0.5,0.25]}");
    let mut buffer = nums(&[-1.0, -1.0, 2.0, -4.0, -8.0]);
    a.apply(&mut buffer);
    assert_eq!(buffer, nums(&[-0.5, -0.25, 2.0, -1.0, -4.0]));
    let one = activation("{\"type\":\"PReLU\",\"negative_slope\":0.5}");
    assert_eq!(one.scalar(Num(-3.0), 7), Num(-1.5));
    assert!(one.is_total());
    let none = activation("{\"type\":\"PReLU\",\"negative_slopes\":[]}");
    assert!(!none.is_total());
    // What is positive asks for no slope.
    assert_eq!(none.scalar(Num(2.5), 3), Num(2.5));
    let mut buffer = nums(&[1.0, 0.25]);
    none.apply(&mut buffer);
    assert_eq!(buffer, nums(&[1.0, 0.25]));
}

#[test]
fn odd_and_even_halves() {
    for name in ["\"Hardtanh\"", "\"Fasttanh\"", "\"Softsign\""] {
        let a = activation(name);
        for x in [0.0, 0.25, 0.5, 1.0, 1.5, 8.0] {
            assert_eq!(at(&a, -x), -at(&a, x));
            assert_eq!(a.scalar(Num(x), 17), a.scalar(Num(x), 0));
        }
    }
    for name in [
        "\"ReLU\"",
        "\"LeakyReLU\"",
        "{\"type\":\"PReLU\",\"negative_slopes\":[0.5,0.25]}",
    ] {
        for x in [0.125, 1.0, 40.0] {
            assert_eq!(at(&activation(name), x), x);
        }
    }
}

// Matrices and weights =======================================================

#[test]
fn matrices_are_stored_by_column() {
    let mut m: Mat<Num> = Mat::new(2, 3);
    assert_eq!(m.rows(), 2);
    m.set(1, 2, Num(5.0));
    m.put_col(0, &nums(&[1.0, 2.0]));
    assert_eq!(col(&m, 0), [1.0, 2.0]);
    assert_eq!(col(&m, 2), [0.0, 5.0]);
    assert_eq!(m.get(1, 2), Num(5.0));
    m.copy_col(0, 2);
    assert_eq!(col(&m, 2), [1.0, 2.0]);
    assert_eq!(m.left_cols_mut(2).len(), 4);
    m.zero();
    assert_eq!(col(&m, 0), [0.0, 0.0]);
    m.reset(1, 4);
    assert_eq!((m.rows(), col(&m, 3)), (1, vec![0.0]));
}

#[test]
fn weights_are_handed_out_once() {
    let data = nums(&[1.0, 2.0]);
    let mut w = Weights::new(&data);
    assert_eq!(w.next(), Ok(Num(1.0)));
    assert_eq!(w.finish(), Err("weight mismatch: consumed 1 of 2 weights".to_string()));
    assert_eq!(w.next(), Ok(Num(2.0)));
    assert_eq!(w.finish(), Ok(()));
    assert_eq!(
        w.next(),
        Err("weight underflow: model expects more than 2 weights".to_string())
    );
}

// Convolutions ===============================================================

#[test]
fn pointwise_convolutions() {
    let data = nums(&[1.0, 2.0, 3.0, 4.0, 0.5, -0.5]);
    let mut c: Conv1x1<Num> = Conv1x1::new(2, 2, true, 1).unwrap();
    let mut w = Weights::new(&data);
    c.set_weights(&mut w).unwrap();
    assert_eq!(w.finish(), Ok(()));
    c.set_max_buffer_size(2);
    c.process(&mat(&[&[1.0, 1.0], &[2.0, -1.0]]), 2);
    assert_eq!(col(&c.out, 0), [3.5, 6.5]);
    assert_eq!(col(&c.out, 1), [0.5, 1.5]);
}

#[test]
fn grouped_convolutions_keep_groups_apart() {
    let data = nums(&[2.0, 3.0]);
    let mut c: Conv1x1<Num> = Conv1x1::new(2, 2, false, 2).unwrap();
    c.set_weights(&mut Weights::new(&data)).unwrap();
    c.set_max_buffer_size(1);
    c.process(&mat(&[&[10.0, 100.0]]), 1);
    assert_eq!(col(&c.out, 0), [20.0, 300.0]);
    assert!(Conv1x1::<Num>::new(3, 2, false, 2).is_err());
}

#[test]
fn dilated_convolutions_look_back() {
    // Taps from the oldest to the latest, two frames apart.
    let data = nums(&[1.0, 10.0, 100.0, 0.5]);
    let mut c: Conv1D<Num> = Conv1D::new(1, 1, 3, true, 2, 1).unwrap();
    c.set_weights(&mut Weights::new(&data)).unwrap();
    assert_eq!((c.kernel_size(), c.dilation(), c.lookback()), (3, 2, 4));
    c.set_max_buffer_size(4);
    c.process(&mat(&[&[1.0], &[2.0], &[3.0], &[4.0]]), 4);
    assert_eq!(col(&c.out, 0), [100.5]);
    assert_eq!(col(&c.out, 1), [200.5]);
    assert_eq!(col(&c.out, 2), [310.5]);
    assert_eq!(col(&c.out, 3), [420.5]);
    c.process(&mat(&[&[5.0]]), 1);
    assert_eq!(col(&c.out, 0), [531.5]);
    c.process(&mat(&[&[6.0], &[7.0]]), 2);
    assert_eq!(col(&c.out, 0), [642.5]);
    assert_eq!(col(&c.out, 1), [753.5]);
}

#[test]
fn convolutions_in_blocks_are_weighted_sums() {
    // Two inputs to one output, three taps, two frames apart.
    let data = nums(&[1.0, 2.0, 3.0, 4.0, 5.0, 6.0, 0.5]);
    let x: Vec<[f32; 2]> = (0..9).map(|i| [i as f32 - 4.0, (i * i % 7) as f32]).collect();
    let at = |t: isize, i: usize| if t < 0 { 0.0 } else { x[t as usize][i] };
    let want: Vec<f32> = (0..9)
        .map(|t| {
            let mut sum = 0.5;
            for k in 0..3 {
                for i in 0..2 {
                    sum += data[i * 3 + k].0 * at(t - 2 * (2 - k as isize), i);
                }
            }
            sum
        })
        .collect();
    for cuts in [&[9][..], &[1, 8], &[4, 0, 3, 2], &[1, 1, 1, 1, 1, 1, 1, 1, 1]] {
        let mut c: Conv1D<Num> = Conv1D::new(2, 1, 3, true, 2, 1).unwrap();
        c.set_weights(&mut Weights::new(&data)).unwrap();
        c.set_max_buffer_size(9);
        let mut made = Vec::new();
        let mut from = 0;
        for &n in cuts {
            let block: Vec<&[f32]> = x[from..from + n].iter().map(|f| &f[..]).collect();
            if n > 0 {
                c.process(&mat(&block), n);
                made.extend((0..n).map(|f| col(&c.out, f)[0]));
            }
            from += n;
        }
        assert_eq!(made, want);
    }
}

#[test]
fn convolutions_that_cannot_be_made() {
    assert_eq!(
        Conv1D::<Num>::new(2, 4, 1, true, 1, 4).err().unwrap(),
        "Conv1D: channels (2 in / 4 out) must divide evenly by groups (4)"
    );
    assert_eq!(
        Conv1D::<Num>::new(2, 2, 1, true, 0, 1).err().unwrap(),
        "Conv1D: kernel_size and dilation must be >= 1"
    );
    assert_eq!(
        Conv1x1::<Num>::new(usize::MAX, 2, true, 1).err().unwrap(),
        "model dimensions are too large"
    );
}

#[test]
fn modulation_scales_and_shifts() {
    // Two channels, each with a scale and a shift made from one condition.
    let data = nums(&[2.0, 3.0, 10.0, 20.0, 0.0, 0.0, 1.0, 1.0]);
    let mut f: Film<Num> = Film::new(1, 2, true, 1).unwrap();
    f.set_weights(&mut Weights::new(&data)).unwrap();
    f.set_max_buffer_size(1);
    f.process(&mat(&[&[5.0, 7.0, 9.0]]), &mat(&[&[2.0]]), 1);
    assert_eq!(col(&f.out, 0), [5.0 * 4.0 + 21.0, 7.0 * 6.0 + 41.0]);
    let mut target = mat(&[&[5.0, 7.0, 9.0]]);
    f.process_in_place(&mut target, &mat(&[&[2.0]]), 1);
    assert_eq!(col(&target, 0), [41.0, 83.0, 9.0]);

    let data = nums(&[2.0, 3.0, 0.5, 0.5]);
    let mut f: Film<Num> = Film::new(1, 2, false, 1).unwrap();
    f.set_weights(&mut Weights::new(&data)).unwrap();
    f.set_max_buffer_size(1);
    f.process(&mat(&[&[5.0, 7.0]]), &mat(&[&[2.0]]), 1);
    assert_eq!(col(&f.out, 0), [5.0 * 4.5, 7.0 * 6.5]);
}

// Layers =====================================================================

fn spec(json: &str) -> LayerArraySpec<Num> {
    parse_layer_array_spec(&read_json(json).unwrap(), 0).unwrap()
}

#[test]
fn a_gated_layer() {
    let s = spec(
        r#"{"input_size":1,"condition_size":1,"head_size":1,"channels":1,"kernel_size":1,
            "dilations":[1],"activation":"ReLU","gated":true,"head_bias":true}"#,
    );
    assert_eq!(s.gating_modes, vec![GatingMode::Gated]);
    let mut a = build_layer_array(&s).unwrap();
    // rechannel 2; conv rows 1 and 0 with biases 0.5 and 0; mixin 1 and 0;
    // residual 3 with bias 1; head 2 with bias 4.
    let data = nums(&[2.0, 1.0, 0.0, 0.5, 0.0, 1.0, 0.0, 3.0, 1.0, 2.0, 4.0]);
    let mut w = Weights::new(&data);
    a.set_weights(&mut w).unwrap();
    assert_eq!(w.finish(), Ok(()));
    a.set_max_buffer_size(1);
    a.process(&mat(&[&[3.0]]), &mat(&[&[0.25]]), None, 1);
    // The lower half is 6 + 0.5 + 0.25, the upper half is 0 and passes half.
    let hidden = 6.75f32 * 0.5;
    assert_eq!(col(a.layer_outputs(), 0), [6.0 + (1.0 + 3.0 * hidden)]);
    assert_eq!(col(a.head_outputs(), 0), [4.0 + 2.0 * hidden]);
    assert_eq!(a.receptive_field(), Some(0));
}

#[test]
fn a_blended_layer() {
    let s = spec(
        r#"{"input_size":1,"condition_size":1,"head_size":1,"channels":1,"kernel_size":1,
            "dilations":[1],"activation":"ReLU","gating_mode":"blended","head_bias":true}"#,
    );
    assert_eq!(s.gating_modes, vec![GatingMode::Blended]);
    let mut a = build_layer_array(&s).unwrap();
    let data = nums(&[1.0, -1.0, 0.0, 0.0, 0.0, 0.0, 0.0, 1.0, 0.0, 1.0, 0.0]);
    a.set_weights(&mut Weights::new(&data)).unwrap();
    a.set_max_buffer_size(1);
    a.process(&mat(&[&[3.0]]), &mat(&[&[0.0]]), None, 1);
    // Half of the activation, which is 0, and half of its argument, -3.
    assert_eq!(col(a.head_outputs(), 0), [-1.5]);
}

#[test]
fn stacks_add_to_the_head_before() {
    let s = spec(
        r#"{"input_size":1,"condition_size":1,"head_size":1,"channels":1,"kernel_size":2,
            "dilations":[1,4],"activation":"ReLU","gated":false,"head_bias":false}"#,
    );
    let mut a = build_layer_array(&s).unwrap();
    // Both layers pass the latest frame; the residual is twice that.
    let one = [0.0, 1.0, 0.0, 0.0, 2.0, 0.0];
    let mut list = vec![1.0];
    list.extend_from_slice(&one);
    list.extend_from_slice(&one);
    list.push(1.0);
    a.set_weights(&mut Weights::new(&nums(&list))).unwrap();
    assert_eq!(a.receptive_field(), Some(5));
    a.set_max_buffer_size(1);
    a.process(&mat(&[&[1.0]]), &mat(&[&[0.0]]), Some(&mat(&[&[100.0]])), 1);
    assert_eq!(col(a.layer_outputs(), 0), [9.0]);
    assert_eq!(col(a.head_outputs(), 0), [104.0]);
}

// Recurrent networks =========================================================

#[test]
fn a_cell_step() {
    // One input and one hidden number; rows for input, forget, candidate and
    // output; then the biases, the hidden number and the memory at the start.
    let data = nums(&[
        1.0, 0.5, 0.0, 0.0, 2.0, 0.0, 0.0, 0.0, 0.0, 0.0, 0.0, 0.0, 0.25, 0.75,
    ]);
    let mut w = Weights::new(&data);
    let mut cell = LstmCell::new(1, 1, &mut w).unwrap();
    assert_eq!(w.finish(), Ok(()));
    assert_eq!(cell.hidden_state(), &nums(&[0.25])[..]);
    cell.process(&nums(&[1.0]));
    let sig = |x: f32| 1.0f32 / (1.0 + (-x).exp());
    let c = sig(0.0) * 0.75 + sig(1.0 + 0.5 * 0.25) * 2.0f32.tanh();
    let h = sig(0.0) * c.tanh();
    assert_eq!(cell.hidden_state(), &nums(&[h])[..]);
    cell.reset_state();
    assert_eq!(cell.hidden_state(), &nums(&[0.25])[..]);
}

#[test]
fn recurrent_networks_warm_up_for_half_a_second() {
    let cfg = r#"{"num_layers":1,"input_size":1,"hidden_size":1}"#;
    let data = nums(&[0.1; 16]);
    let parsed = |rate: f64| {
        neural_amp_modeler::pure::lstm::parse(&read_json(cfg).unwrap(), &data, Wide(rate)).unwrap()
    };
    assert_eq!(parsed(48000.0).prewarm_samples(), 24000);
    assert_eq!(parsed(3.0).prewarm_samples(), 1);
    assert_eq!(parsed(-1.0).prewarm_samples(), 1);
    assert_eq!((parsed(1.0).in_channels(), parsed(1.0).out_channels()), (1, 1));
}

// Sizes ======================================================================

const SLIM: &str = r#"{"layers":[{"input_size":1,"condition_size":1,"head_size":1,"channels":3,
    "kernel_size":1,"dilations":[1],"activation":"ReLU","gated":false,"head_bias":false,
    "slimmable":{"method":"slice_channels_uniform","kwargs":{"allowed_channels":[1,2,3]}}}],
    "head_scale":1.0}"#;

#[test]
fn ratios_select_channels() {
    let data = nums(&[0.5; 34]);
    let s = parse_slimmable(&read_json(SLIM).unwrap(), &data).unwrap();
    let pick = |r: f64| s.channels_for_size(Wide(r));
    assert_eq!(pick(0.0), [1]);
    assert_eq!(pick(0.32), [1]);
    assert_eq!(pick(0.34), [2]);
    assert_eq!(pick(0.67), [3]);
    assert_eq!(pick(1.0), [3]);
    assert_eq!(pick(2.0), [3]);
    assert_eq!(pick(-1.0), [1]);
    assert_eq!(pick(f64::NAN), [1]);
    assert_eq!(s.current_channels, [3]);
}

#[test]
fn a_size_keeps_the_first_channels() {
    let data: Vec<Num> = (0..34).map(|i| Num(i as f32)).collect();
    let full = parse_slimmable(&read_json(SLIM).unwrap(), &data).unwrap();
    let mut small = full.specs[0].duplicate();
    small.channels = 2;
    small.bottleneck = 2;
    let kept = extract_slimmed_weights(&full.specs, &vec![small], &data).unwrap();
    let want = [
        0.0, 1.0, // rechannel, of 3
        3.0, 4.0, 6.0, 7.0, 12.0, 13.0, // convolution, of 3 by 3, and its bias
        15.0, 16.0, // contribution of the condition
        18.0, 19.0, 21.0, 22.0, 27.0, 28.0, // residual and its bias
        30.0, 31.0, // head
        33.0, // scale
    ];
    assert_eq!(kept, nums(&want));
    // With the channels of the full network, every weight is kept.
    let same = vec![full.specs[0].duplicate()];
    assert_eq!(extract_slimmed_weights(&full.specs, &same, &data).unwrap(), data);
}

#[test]
fn larger_ratios_select_no_fewer_channels() {
    let data = nums(&[0.5; 34]);
    let s = parse_slimmable(&read_json(SLIM).unwrap(), &data).unwrap();
    let mut before = 0;
    for step in -10..=30 {
        let picked = s.channels_for_size(Wide(step as f64 * 0.05));
        assert_eq!(picked.len(), 1);
        assert!([1, 2, 3].contains(&picked[0]));
        assert!(before <= picked[0]);
        before = picked[0];
    }
    assert_eq!(before, 3);
}

#[test]
fn sizes_that_cannot_be_built_are_refused() {
    let layer = |input: usize, head: usize, extra: &str| {
        format!(
            "{{\"input_size\":{},\"condition_size\":1,\"head_size\":{},\"channels\":2,\"kernel_size\":1,\"dilations\":[1],\"activation\":\"ReLU\",\"gated\":false,\"head_bias\":false,\"slimmable\":{{\"method\":\"slice_channels_uniform\"}}{}}}",
            input, head, extra
        )
    };
    let text = |extra: &str, weights: usize| {
        let list: Vec<String> = (0..weights).map(|i| format!("{}", i % 5 + 1)).collect();
        format!(
            "{{\"architecture\":\"WaveNet\",\"config\":{{\"layers\":[{},{}],\"head_scale\":1}},\"weights\":[{}]}}",
            layer(1, 2, ""),
            layer(2, 1, extra),
            list.join(",")
        )
    };
    // The second stack adds a fixed number of channels, so a smaller size does
    // not fit the head of the first.
    let fixed = ",\"head1x1\":{\"active\":true,\"out_channels\":2}";
    assert_eq!(
        PureNamModel::<Num>::from_json(&text(fixed, 47)).err(),
        Some("SlimmableWavenet: layer array 1 cannot be built with 1 channels".to_string())
    );
    // Without it every size fits, and another size is another network.
    let mut m = PureNamModel::<Num>::from_json(&text("", 41)).unwrap();
    let input = [Wide(0.5); 4];
    let mut before = [Wide(0.0); 4];
    let mut after = [Wide(0.0); 4];
    m.reset(Wide(48000.0), 16);
    m.process(&input, &mut before);
    for ratio in [-1.0, 0.0, 0.4, 0.6, 1.0, 2.0] {
        assert!(m.can_select(Wide(ratio)));
        assert!(m.selects_total(Wide(ratio)));
    }
    assert!(m.set_slimmable_size(Wide(0.0)));
    m.process(&input, &mut after);
    assert_ne!(before, after);
    assert!(m.set_slimmable_size(Wide(1.0)));
    m.process(&input, &mut after);
    assert_eq!(before, after);
}

#[test]
fn the_longest_list_ends_with_the_full_network() {
    // At full size the second stack adds to four channels and has three, which no
    // reduced network could. Its list is the longest, so that it reaches three
    // only in the full network.
    let text = |first: &str| {
        let list: Vec<String> = (0..70).map(|i| format!("{}", i % 5 + 1)).collect();
        let layer = |shape: &str, sizes: &str| {
            format!(
                "{{{},\"condition_size\":1,\"kernel_size\":1,\"dilations\":[1],\"activation\":\"ReLU\",\"gated\":false,\"head_bias\":false,\"slimmable\":{{\"method\":\"slice_channels_uniform\",\"kwargs\":{{\"allowed_channels\":{}}}}}}}",
                shape, sizes
            )
        };
        format!(
            "{{\"layers\":[{},{}],\"head_scale\":1,\"weights\":[{}]}}",
            layer("\"input_size\":1,\"channels\":2,\"head_size\":4", first),
            layer("\"input_size\":2,\"channels\":3,\"bottleneck\":4,\"head_size\":1", "[1,2,3]"),
            list.join(",")
        )
    };
    let data: Vec<Num> = (0..70).map(|i| Num((i % 5 + 1) as f32)).collect();
    for (first, small) in [("[2]", 2), ("[1,2]", 1)] {
        let mut s = parse_slimmable(&read_json(&text(first)).unwrap(), &data).unwrap();
        assert_eq!(s.current_channels, [2, 3]);
        assert_eq!(s.set_slimmable_size(Wide(0.0)), Ok(true));
        assert_eq!(s.current_channels, [small, 1]);
        assert_eq!(s.set_slimmable_size(Wide(0.1)), Ok(false));
        assert_eq!(s.set_slimmable_size(Wide(0.4)), Ok(true));
        assert_eq!(s.current_channels, [small, 2]);
        assert!(s.set_slimmable_size(Wide(0.6)).is_ok());
        assert_eq!(s.current_channels, [2, 2]);
        assert_eq!(s.set_slimmable_size(Wide(1.0)), Ok(true));
        assert_eq!(s.current_channels, [2, 3]);
        for step in -2..=102 {
            assert!(s.set_slimmable_size(Wide(step as f64 * 0.01)).is_ok());
        }
    }
    // A longer list elsewhere keeps the second stack at three in a reduced network.
    let longer = text("[1,2]").replace("[1,2,3]", "[3]");
    assert_eq!(
        parse_slimmable(&read_json(&longer).unwrap(), &data).err(),
        Some("SlimmableWavenet: layer array 1 cannot be built with 3 channels".to_string())
    );
}

// JSON =======================================================================

#[test]
fn values_are_shown_in_compact_notation() {
    let j = read_json(
        "{ \"b\" : [ 1, -2, 2.5, true, null ], \"a\" : \"line\\nquote\\\"\\u0001\\\\é\" }",
    )
    .unwrap();
    assert_eq!(
        with_json("got ", &j),
        "got {\"a\":\"line\\nquote\\\"\\u0001\\\\é\",\"b\":[1,-2,2.5,true,null]}"
    );
    let j = read_json("\"\\b\\t\\f\\r\\u001f /\u{7f}\u{2028}\"").unwrap();
    assert_eq!(with_json("", &j), "\"\\b\\t\\f\\r\\u001f /\u{7f}\u{2028}\"");
    let j = read_json("[[],{}]").unwrap();
    assert_eq!(with_json("", &j), "[[],{}]");
}

#[test]
fn values_are_looked_up() {
    let j = read_json("{\"a\":null,\"b\":3,\"c\":-3,\"d\":0.5,\"e\":\"x\",\"f\":[1],\"b\":4}").unwrap();
    assert!(j.get("a").is_some());
    assert!(j.field("a").is_none());
    assert!(j.get("z").is_none());
    assert_eq!(j.get("b").unwrap().as_u64(), Some(4));
    assert_eq!(j.get("c").unwrap().as_u64(), None);
    assert_eq!(j.get("c").unwrap().as_real(), Some((-3.0f64).to_bits()));
    assert_eq!(j.get("d").unwrap().as_real(), Some(0.5f64.to_bits()));
    assert_eq!(j.get("e").unwrap().as_str(), Some("x"));
    assert_eq!(j.get("f").unwrap().as_array().unwrap().len(), 1);
    assert!(j.is_object());
    assert!(!j.get("f").unwrap().is_object());
    let copy = j.duplicate();
    assert_eq!(with_json("", &copy), with_json("", &j));
}
