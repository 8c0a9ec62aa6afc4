//! What holds of every model, seen on small ones.

use neural_amp_modeler::num::{Sample, Scalar};
use neural_amp_modeler::pure::PureNamModel;

#[derive(Clone, Copy, Debug, PartialEq)]
struct Wide(f64);

#[derive(Clone, Copy, Debug, PartialEq)]
struct Num(f32);

impl Sample for Wide {
    fn from_bits(bits: u64) -> Wide {
        Wide(f64::from_bits(bits))
    }
    fn lt(self, other: Wide) -> bool {
        self.0 < other.0
    }
    fn le(self, other: Wide) -> bool {
        self.0 <= other.0
    }
    fn halved(self) -> isize {
        (0.5 * self.0) as isize
    }
    fn step_of(self, steps: usize) -> isize {
        (self.0 * steps as f64).floor() as isize
    }
}

impl Scalar for Num {
    type Wide = Wide;
    fn zero() -> Num {
        Num(0.0)
    }
    fn literal(digits: i64, places: u32) -> Num {
        Num((digits as f64 / 10f64.powi(places as i32)) as f32)
    }
    fn narrow(x: Wide) -> Num {
        Num(x.0 as f32)
    }
    fn widen(self) -> Wide {
        Wide(self.0 as f64)
    }
    fn add(self, other: Num) -> Num {
        Num(self.0 + other.0)
    }
    fn sub(self, other: Num) -> Num {
        Num(self.0 - other.0)
    }
    fn mul(self, other: Num) -> Num {
        Num(self.0 * other.0)
    }
    fn div(self, other: Num) -> Num {
        Num(self.0 / other.0)
    }
    fn neg(self) -> Num {
        Num(-self.0)
    }
    fn abs(self) -> Num {
        Num(self.0.abs())
    }
    fn exp(self) -> Num {
        Num(self.0.exp())
    }
    fn tanh(self) -> Num {
        Num(self.0.tanh())
    }
    fn lt(self, other: Num) -> bool {
        self.0 < other.0
    }
}

fn list(n: usize) -> String {
    let v: Vec<String> = (0..n).map(|i| format!("{}", ((i * 5) % 11) as f32 * 0.125 - 0.6)).collect();
    format!("[{}]", v.join(","))
}

/// A network of three channels and two layers that looks back six frames.
fn net(activation: &str) -> PureNamModel<Num> {
    let text = format!(
        "{{\"architecture\":\"WaveNet\",\"config\":{{\"layers\":[{{\"input_size\":1,\"condition_size\":1,\"head_size\":1,\"channels\":3,\"kernel_size\":3,\"dilations\":[1,2],\"activation\":{},\"gated\":false,\"head_bias\":true}}],\"head_scale\":0.5}},\"weights\":{}}}",
        activation,
        list(98)
    );
    PureNamModel::from_json(&text).unwrap()
}

fn recurrent() -> PureNamModel<Num> {
    let text = format!(
        "{{\"architecture\":\"LSTM\",\"sample_rate\":100,\"config\":{{\"num_layers\":2,\"input_size\":1,\"hidden_size\":2}},\"weights\":{}}}",
        list(83)
    );
    PureNamModel::from_json(&text).unwrap()
}

fn signal(n: usize) -> Vec<Wide> {
    (0..n).map(|i| Wide(((i * 7) % 13) as f64 * 0.15 - 0.9)).collect()
}

fn run(m: &mut PureNamModel<Num>, x: &[Wide]) -> Vec<Wide> {
    let mut y = vec![Wide(0.0); x.len()];
    m.process(x, &mut y);
    y
}

fn fresh(mut m: PureNamModel<Num>, room: usize) -> PureNamModel<Num> {
    assert!(m.can_reset(room));
    m.reset(Wide(48000.0), room);
    m
}

#[test]
fn two_calls_give_what_one_gives() {
    let x = signal(40);
    for cut in [0, 1, 7, 39, 40] {
        let whole = run(&mut fresh(net("\"Tanh\""), 16), &x);
        let mut m = fresh(net("\"Tanh\""), 16);
        let mut parts = run(&mut m, &x[..cut]);
        parts.extend(run(&mut m, &x[cut..]));
        assert_eq!(whole, parts);

        let whole = run(&mut fresh(recurrent(), 16), &x);
        let mut m = fresh(recurrent(), 16);
        let mut parts = run(&mut m, &x[..cut]);
        parts.extend(run(&mut m, &x[cut..]));
        assert_eq!(whole, parts);
    }
}

#[test]
fn room_does_not_show() {
    let x = signal(40);
    let a = run(&mut fresh(net("\"Sigmoid\""), 1), &x);
    let b = run(&mut fresh(net("\"Sigmoid\""), 5), &x);
    let c = run(&mut fresh(net("\"Sigmoid\""), 64), &x);
    assert_eq!(a, b);
    assert_eq!(a, c);
}

#[test]
fn slopes_that_divide_the_channels_do_not_show_either() {
    let x = signal(40);
    let slopes = "{\"type\":\"PReLU\",\"negative_slopes\":[0.5,0.25,0.125]}";
    let a = run(&mut fresh(net(slopes), 4), &x);
    let b = run(&mut fresh(net(slopes), 7), &x);
    assert_eq!(a, b);
}

#[test]
fn slopes_that_do_not_divide_the_channels_show() {
    let x = signal(40);
    let slopes = "{\"type\":\"PReLU\",\"negative_slopes\":[0.5,0.25]}";
    let a = run(&mut fresh(net(slopes), 1), &x);
    let b = run(&mut fresh(net(slopes), 2), &x);
    assert_ne!(a, b);
}

#[test]
fn networks_forget() {
    let mut a = fresh(net("\"Softsign\""), 16);
    let mut b = fresh(net("\"Softsign\""), 16);
    run(&mut a, &signal(33));
    let x = signal(30);
    let ya = run(&mut a, &x);
    let yb = run(&mut b, &x);
    assert_ne!(ya[0], yb[0]);
    assert_eq!(ya[6..], yb[6..]);
    assert_eq!(run(&mut a, &x), run(&mut b, &x));
}

#[test]
fn a_reset_comes_to_rest() {
    let mut a = fresh(net("\"Tanh\""), 16);
    let mut b = fresh(net("\"Tanh\""), 16);
    let quiet = vec![Wide(0.0); 21];
    let y = run(&mut a, &quiet);
    assert!(y.iter().all(|v| *v == y[0]));
    let x = signal(10);
    assert_eq!(run(&mut a, &x), run(&mut b, &x));
}

#[test]
fn a_reset_forgets() {
    let x = signal(20);
    for mut m in [net("\"ReLU\""), recurrent()] {
        m.reset(Wide(48000.0), 8);
        let first = run(&mut m, &x);
        assert_ne!(run(&mut m, &x), first);
        m.reset(Wide(44100.0), 8);
        assert_eq!(run(&mut m, &x), first);
    }
}

#[test]
fn empty_blocks_change_nothing() {
    let x = signal(12);
    let mut a = fresh(net("\"Tanh\""), 4);
    let mut b = fresh(net("\"Tanh\""), 4);
    assert!(run(&mut a, &[]).is_empty());
    assert_eq!(run(&mut a, &x), run(&mut b, &x));
}

#[test]
fn models_that_cannot_run_are_not_reset() {
    // No buffer is this large.
    assert!(!net("\"Tanh\"").can_reset(usize::MAX));
    assert!(net("\"Tanh\"").can_reset(0));
}

/// A network of one channel and one layer, with these weights.
fn small(activation: &str, weights: &str, extra: &str) -> String {
    format!(
        "{{\"architecture\":\"WaveNet\",\"config\":{{\"layers\":[{{\"input_size\":1,\"condition_size\":1,\"head_size\":1,\"channels\":1,\"kernel_size\":1,\"dilations\":[1],\"activation\":{},\"gated\":false,\"head_bias\":false}}],\"head_scale\":1{}}},\"weights\":[{}]}}",
        activation, extra, weights
    )
}

#[test]
fn slopes_are_asked_for_at_or_below_zero_alone() {
    let none = "{\"type\":\"PReLU\",\"negative_slopes\":[]}";
    let weights = "1,0.5,0.25,0.125,1,0.5,2,1";
    let load = |a: &str| PureNamModel::<Num>::from_json(&small(a, weights, "")).unwrap();
    assert!(!load(none).is_total());
    assert!(load("\"ReLU\"").is_total());
    assert!(load(none).can_reset(16));
    // Silence and positive samples stay above zero.
    let x: Vec<Wide> = (0..20).map(|i| Wide(i as f64 * 0.5)).collect();
    let made = run(&mut fresh(load(none), 16), &x);
    assert_eq!(made, run(&mut fresh(load("\"ReLU\""), 16), &x));
    assert_eq!(made[2], Wide(2.0 * (0.5 + 0.25 + 0.125)));
}

#[test]
fn condition_weights_do_not_show_without_contributions() {
    let x = signal(24);
    let made = |mixin: &str, inner: &str| {
        let condition = small("\"Tanh\"", inner, "");
        let weights = format!("1,0.5,0.25,{},1,0.5,2,1", mixin);
        let text = small("\"Tanh\"", &weights, &format!(",\"condition_dsp\":{}", condition));
        run(&mut fresh(PureNamModel::<Num>::from_json(&text).unwrap(), 8), &x)
    };
    let one = "1,0.5,0.25,0.125,1,0.5,2,1";
    let other = "0.5,-1,0.75,2,0.25,-0.5,3,-2";
    assert_eq!(made("0", one), made("0", other));
    assert_ne!(made("1", one), made("1", other));
}

#[test]
fn own_numbers_lose_nothing() {
    let x: Vec<Num> = (0..30).map(|i| Num(((i * 7) % 13) as f32 * 0.15 - 0.9)).collect();
    let wide: Vec<Wide> = x.iter().map(|v| v.widen()).collect();
    for make in [|| net("\"Tanh\""), recurrent] {
        let mut a = fresh(make(), 8);
        let mut b = fresh(make(), 8);
        let mut own = vec![Num(0.0); x.len()];
        a.process_f32(&x, &mut own);
        let full = run(&mut b, &wide);
        let back: Vec<Wide> = own.iter().map(|v| v.widen()).collect();
        assert_eq!(back, full);
    }
}

#[test]
fn one_is_the_default_of_containers() {
    let x = signal(20);
    let a = small("\"Tanh\"", "1,0.5,0.25,0.125,1,0.5,2,1", "");
    let b = small("\"Tanh\"", "0.5,-1,0.75,2,0.25,-0.5,3,-2", "");
    let text = |low: &str, high: &str| {
        format!(
            "{{\"architecture\":\"SlimmableContainer\",\"config\":{{\"submodels\":[{{\"max_value\":{},\"model\":{}}},{{\"max_value\":{},\"model\":{}}}]}},\"weights\":[]}}",
            low, a, high, b
        )
    };
    let made = |text: &str, ratio: Option<f64>| {
        let mut m = fresh(PureNamModel::<Num>::from_json(text).unwrap(), 8);
        if let Some(r) = ratio {
            assert!(m.set_slimmable_size(Wide(r)));
        }
        run(&mut m, &x)
    };
    let full = made(&text("0.5", "1"), None);
    assert_eq!(made(&text("0.5", "1"), Some(1.0)), full);
    assert_eq!(made(&text("0.5", "0.75"), Some(1.0)), full);
    assert_eq!(made(&text("1", "2"), Some(1.0)), full);
    assert_ne!(made(&text("0.5", "1"), Some(0.25)), full);
    // A bound above one is above the ratio.
    assert_ne!(made(&text("1.5", "2"), Some(1.0)), made(&text("1.5", "2"), None));
}

#[test]
fn channels_never_change() {
    let stack = |input: usize, head: usize| {
        format!(
            "{{\"input_size\":{},\"condition_size\":1,\"head_size\":{},\"channels\":2,\"kernel_size\":1,\"dilations\":[1],\"activation\":\"ReLU\",\"gated\":false,\"head_bias\":false,\"slimmable\":{{\"method\":\"slice_channels_uniform\"}}}}",
            input, head
        )
    };
    let text = format!(
        "{{\"architecture\":\"WaveNet\",\"config\":{{\"layers\":[{},{}],\"head_scale\":1}},\"weights\":{}}}",
        stack(1, 2),
        stack(2, 3),
        list(45)
    );
    let mut m = PureNamModel::<Num>::from_json(&text).unwrap();
    assert_eq!((m.input_channels(), m.output_channels()), (1, 3));
    for ratio in [0.0, 0.7, 0.2, 1.0] {
        assert!(m.set_slimmable_size(Wide(ratio)));
        assert_eq!((m.input_channels(), m.output_channels()), (1, 3));
        m.reset(Wide(48000.0), 4);
        run(&mut m, &signal(6));
        assert_eq!((m.input_channels(), m.output_channels()), (1, 3));
    }
}
