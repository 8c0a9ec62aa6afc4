//! Whole models: they are built in memory as `.nam` files, loaded, run on audio
//! and held against a plain renderer that computes each network over the whole
//! signal at once.

use neural_amp_modeler::num::{Sample, Scalar};
use neural_amp_modeler::pure::model::PureNamModel;
use std::f64::consts::PI;

#[derive(Clone, Copy, Debug, PartialEq)]
struct Wide(f64);

#[derive(Clone, Copy, Debug, PartialEq)]
struct Num(f32);

impl Sample for Wide {
    fn from_bits(bits: u64) -> Wide {
        Wide(f64::from_bits(bits))
    }
    fn lt(self, other: Wide) -> bool {
        self.0 < other.0
    }
    fn le(self, other: Wide) -> bool {
        self.0 <= other.0
    }
    fn halved(self) -> isize {
        (0.5 * self.0) as isize
    }
    fn step_of(self, steps: usize) -> isize {
        (self.0 * steps as f64).floor() as isize
    }
}

impl Scalar for Num {
    type Wide = Wide;
    fn zero() -> Num {
        Num(0.0)
    }
    fn literal(digits: i64, places: u32) -> Num {
        Num((digits as f64 / 10f64.powi(places as i32)) as f32)
    }
    fn narrow(x: Wide) -> Num {
        Num(x.0 as f32)
    }
    fn widen(self) -> Wide {
        Wide(self.0 as f64)
    }
    fn add(self, other: Num) -> Num {
        Num(self.0 + other.0)
    }
    fn sub(self, other: Num) -> Num {
        Num(self.0 - other.0)
    }
    fn mul(self, other: Num) -> Num {
        Num(self.0 * other.0)
    }
    fn div(self, other: Num) -> Num {
        Num(self.0 / other.0)
    }
    fn neg(self) -> Num {
        Num(-self.0)
    }
    fn abs(self) -> Num {
        Num(self.0.abs())
    }
    fn exp(self) -> Num {
        Num(self.0.exp())
    }
    fn tanh(self) -> Num {
        Num(self.0.tanh())
    }
    fn lt(self, other: Num) -> bool {
        self.0 < other.0
    }
}

type NamModel = neural_amp_modeler::NamModel<Num>;

fn to_wide(x: &[f64]) -> Vec<Wide> {
    x.iter().map(|&v| Wide(v)).collect()
}

fn from_wide(x: &[Wide]) -> Vec<f64> {
    x.iter().map(|v| v.0).collect()
}

fn sine_440(sample_rate: f64, num_samples: usize, amplitude: f64) -> Vec<f64> {
    (0..num_samples)
        .map(|i| (2.0 * PI * 440.0 * i as f64 / sample_rate).sin() * amplitude)
        .collect()
}

// ── The models ─────────────────────────────────────────────────────

#[derive(Clone, Copy, PartialEq)]
enum Gate {
    Plain,
    Gated,
    Blended,
}

#[derive(Clone)]
struct Stack {
    input: usize,
    condition: usize,
    channels: usize,
    bottleneck: usize,
    kernel: usize,
    dilations: Vec<usize>,
    act: &'static str,
    gate: Gate,
    secondary: &'static str,
    layer1x1: bool,
    head1x1: Option<usize>,
    /// Whether each modulation shifts, where there is one.
    films: [Option<bool>; 8],
    head_size: usize,
    head_kernel: usize,
    head_dilation: usize,
    head_bias: bool,
    groups: usize,
    /// Sizes that the stack can be reduced to.
    allowed: Option<Vec<usize>>,
    modern: bool,
}

#[derive(Clone)]
struct Net {
    stacks: Vec<Stack>,
    /// Channels between the convolutions and taps of the head after the stacks.
    post: Option<(usize, usize, Vec<usize>)>,
    condition: Option<Box<Net>>,
    weights: Vec<f32>,
}

#[derive(Clone)]
struct Recurrent {
    layers: usize,
    hidden: usize,
    weights: Vec<f32>,
}

#[derive(Clone)]
enum Model {
    Net(Net),
    Recurrent(Recurrent),
    Container(Vec<(f64, Model)>),
}

/// Deterministic weights that are exact in decimal notation.
fn weights(seed: u64, count: usize, span: f32) -> Vec<f32> {
    let mut state = seed.wrapping_mul(0x9E37_79B9_7F4A_7C15) ^ 0x243F_6A88_85A3_08D3;
    (0..count)
        .map(|_| {
            state ^= state << 13;
            state ^= state >> 7;
            state ^= state << 17;
            let k = (state >> 40) % 2001;
            (k as f32 - 1000.0) / 1024.0 * span
        })
        .collect()
}

fn stack(input: usize, channels: usize, dilations: &[usize], head_size: usize) -> Stack {
    Stack {
        input,
        condition: 1,
        channels,
        bottleneck: channels,
        kernel: 3,
        dilations: dilations.to_vec(),
        act: "Tanh",
        gate: Gate::Plain,
        secondary: "Sigmoid",
        layer1x1: true,
        head1x1: None,
        films: [None; 8],
        head_size,
        head_kernel: 1,
        head_dilation: 1,
        head_bias: false,
        groups: 1,
        allowed: None,
        modern: false,
    }
}

impl Stack {
    fn z(&self) -> usize {
        if self.gate == Gate::Plain {
            self.bottleneck
        } else {
            2 * self.bottleneck
        }
    }

    fn head_rows(&self) -> usize {
        self.head1x1.unwrap_or(self.bottleneck)
    }

    fn film_dims(&self) -> [usize; 8] {
        let z = self.z();
        [
            self.channels,
            z,
            self.condition,
            z,
            z,
            self.bottleneck,
            self.channels,
            self.head_rows(),
        ]
    }

    fn count(&self) -> usize {
        let z = self.z();
        let mut layer = z * (self.channels / self.groups) * self.kernel + z + self.condition * z;
        if self.layer1x1 {
            layer += self.bottleneck * self.channels + self.channels;
        }
        if let Some(out) = self.head1x1 {
            layer += self.bottleneck * out + out;
        }
        for (film, dim) in self.films.iter().zip(self.film_dims()) {
            if let Some(shift) = film {
                let outs = if *shift { 2 * dim } else { dim };
                layer += self.condition * outs + outs;
            }
        }
        let head = self.head_rows() * self.head_size * self.head_kernel
            + if self.head_bias { self.head_size } else { 0 };
        self.input * self.channels + layer * self.dilations.len() + head
    }

    fn json(&self) -> String {
        let list = |v: &[usize]| {
            v.iter().map(|d| d.to_string()).collect::<Vec<_>>().join(",")
        };
        let mut s = format!(
            "{{\"input_size\":{},\"condition_size\":{},\"channels\":{},\"bottleneck\":{},\"dilations\":[{}],\"groups_input\":{}",
            self.input,
            self.condition,
            self.channels,
            self.bottleneck,
            list(&self.dilations),
            self.groups,
        );
        if self.modern {
            let kernels = vec![self.kernel; self.dilations.len()];
            let acts = vec![format!("{{\"type\":\"{}\"}}", self.act); self.dilations.len()];
            s += &format!(
                ",\"kernel_sizes\":[{}],\"activation\":[{}],\"head\":{{\"out_channels\":{},\"kernel_size\":{},\"bias\":{},\"head_dilation\":{}}}",
                list(&kernels),
                acts.join(","),
                self.head_size,
                self.head_kernel,
                self.head_bias,
                self.head_dilation,
            );
            let mode = match self.gate {
                Gate::Plain => "none",
                Gate::Gated => "gated",
                Gate::Blended => "blended",
            };
            s += &format!(
                ",\"gating_mode\":\"{}\",\"secondary_activation\":\"{}\"",
                mode, self.secondary
            );
        } else {
            s += &format!(
                ",\"kernel_size\":{},\"activation\":\"{}\",\"head_size\":{},\"head_bias\":{},\"gated\":{}",
                self.kernel,
                self.act,
                self.head_size,
                self.head_bias,
                self.gate == Gate::Gated,
            );
        }
        if !self.layer1x1 {
            s += ",\"layer1x1\":{\"active\":false}";
        }
        if let Some(out) = self.head1x1 {
            s += &format!(",\"head1x1\":{{\"active\":true,\"out_channels\":{}}}", out);
        }
        for (film, key) in self.films.iter().zip([
            "conv_pre_film",
            "conv_post_film",
            "input_mixin_pre_film",
            "input_mixin_post_film",
            "activation_pre_film",
            "activation_post_film",
            "layer1x1_post_film",
            "head1x1_post_film",
        ]) {
            match film {
                Some(shift) => {
                    s += &format!(",\"{}\":{{\"active\":true,\"shift\":{}}}", key, shift)
                }
                None => s += &format!(",\"{}\":false", key),
            }
        }
        if let Some(allowed) = &self.allowed {
            s += &format!(
                ",\"slimmable\":{{\"method\":\"slice_channels_uniform\",\"kwargs\":{{\"allowed_channels\":[{}]}}}}",
                list(allowed)
            );
        }
        s + "}"
    }
}

fn numbers(v: &[f32]) -> String {
    v.iter().map(|w| format!("{}", w)).collect::<Vec<_>>().join(",")
}

impl Net {
    fn new(stacks: Vec<Stack>, post: Option<(usize, usize, Vec<usize>)>, seed: u64, span: f32) -> Net {
        let mut net = Net { stacks, post, condition: None, weights: Vec::new() };
        net.weights = weights(seed, net.count(), span);
        let last = net.weights.len() - 1;
        net.weights[last] = 0.5;
        net
    }

    fn count(&self) -> usize {
        let mut n: usize = self.stacks.iter().map(|s| s.count()).sum();
        if let Some((channels, out, kernels)) = &self.post {
            let mut cin = self.stacks.last().unwrap().head_size;
            for (i, k) in kernels.iter().enumerate() {
                let cout = if i + 1 == kernels.len() { *out } else { *channels };
                n += cin * cout * k + cout;
                cin = cout;
            }
        }
        n + 1
    }

    fn config(&self) -> String {
        let layers: Vec<String> = self.stacks.iter().map(|s| s.json()).collect();
        let mut s = format!("{{\"layers\":[{}],\"head_scale\":0.25", layers.join(","));
        if let Some((channels, out, kernels)) = &self.post {
            let ks: Vec<String> = kernels.iter().map(|k| k.to_string()).collect();
            s += &format!(
                ",\"head\":{{\"channels\":{},\"out_channels\":{},\"kernel_sizes\":[{}],\"activation\":\"ReLU\"}}",
                channels,
                out,
                ks.join(",")
            );
        } else {
            s += ",\"head\":null";
        }
        if let Some(cd) = &self.condition {
            s += &format!(",\"condition_dsp\":{}", Model::Net((**cd).clone()).json());
        }
        s + "}"
    }

    fn out_channels(&self) -> usize {
        match &self.post {
            Some((_, out, _)) => *out,
            None => self.stacks.last().unwrap().head_size,
        }
    }
}

impl Model {
    fn json(&self) -> String {
        match self {
            Model::Net(net) => format!(
                "{{\"version\":\"0.5.4\",\"architecture\":\"WaveNet\",\"config\":{},\"weights\":[{}],\"sample_rate\":48000,\"metadata\":{{\"loudness\":-18.5,\"input_level_dbu\":12.25}}}}",
                net.config(),
                numbers(&net.weights)
            ),
            Model::Recurrent(r) => format!(
                "{{\"version\":\"0.5.4\",\"architecture\":\"LSTM\",\"config\":{{\"num_layers\":{},\"input_size\":1,\"hidden_size\":{}}},\"weights\":[{}],\"sample_rate\":48000}}",
                r.layers,
                r.hidden,
                numbers(&r.weights)
            ),
            Model::Container(subs) => {
                let list: Vec<String> = subs
                    .iter()
                    .map(|(max, m)| format!("{{\"max_value\":{},\"model\":{}}}", max, m.json()))
                    .collect();
                format!(
                    "{{\"version\":\"0.7.0\",\"architecture\":\"SlimmableContainer\",\"config\":{{\"submodels\":[{}]}},\"weights\":[]}}",
                    list.join(",")
                )
            }
        }
    }
}

fn nano() -> Net {
    let a = stack(1, 4, &[1, 2, 4, 8, 16, 32, 64], 2);
    let mut b = stack(4, 2, &[128, 256, 512, 1, 2, 4, 8, 16], 1);
    b.head_bias = true;
    Net::new(vec![a, b], None, 1, 0.25)
}

fn standard() -> Net {
    let mut a = stack(1, 6, &[1, 2, 4, 8, 16], 3);
    a.gate = Gate::Gated;
    let mut b = stack(6, 3, &[1, 2, 4, 8], 1);
    b.head_bias = true;
    b.act = "ReLU";
    b.gate = Gate::Gated;
    Net::new(vec![a, b], None, 2, 0.5)
}

fn everything() -> Net {
    let mut a = stack(1, 4, &[1, 3, 2], 3);
    a.modern = true;
    a.condition = 2;
    a.bottleneck = 2;
    a.gate = Gate::Blended;
    a.secondary = "Softsign";
    a.act = "SiLU";
    a.head1x1 = Some(3);
    a.groups = 2;
    a.films = [
        Some(true),
        Some(false),
        Some(true),
        Some(true),
        Some(false),
        Some(true),
        Some(true),
        Some(false),
    ];
    a.head_kernel = 2;
    a.head_dilation = 3;
    a.head_bias = true;
    let mut b = stack(4, 3, &[2, 1], 2);
    b.modern = true;
    b.condition = 2;
    b.act = "Hardtanh";
    b.layer1x1 = false;
    b.films = [None, Some(true), None, None, Some(true), None, None, None];
    let mut net = Net::new(vec![a, b], Some((3, 1, vec![2, 3])), 3, 0.5);
    let mut c = stack(1, 3, &[1, 2], 2);
    c.modern = true;
    c.act = "Fasttanh";
    net.condition = Some(Box::new(Net::new(vec![c], None, 4, 0.5)));
    net
}

fn my_model() -> Net {
    let mut a = stack(1, 3, &[1, 2, 4], 1);
    a.modern = true;
    a.act = "Hardswish";
    a.head_bias = true;
    Net::new(vec![a], None, 5, 0.75)
}

fn slimmable() -> Net {
    let mut a = stack(1, 3, &[1, 2, 4], 3);
    a.allowed = Some(vec![1, 2, 3]);
    a.modern = true;
    let mut b = stack(3, 3, &[1, 2], 1);
    b.allowed = Some(vec![1, 2, 3]);
    b.modern = true;
    b.gate = Gate::Gated;
    b.head_bias = true;
    Net::new(vec![a, b], None, 6, 0.75)
}

fn conditioned() -> Net {
    let mut a = stack(1, 3, &[1, 2, 4], 1);
    a.condition = 2;
    let mut net = Net::new(vec![a], None, 7, 0.75);
    net.condition = Some(Box::new(Net::new(vec![stack(1, 2, &[1, 4], 2)], None, 8, 0.75)));
    net
}

fn recurrent(seed: u64, layers: usize, hidden: usize) -> Recurrent {
    let mut n = 0;
    for i in 0..layers {
        let cin = if i == 0 { 1 } else { hidden };
        n += 4 * hidden * (cin + hidden) + 4 * hidden + 2 * hidden;
    }
    Recurrent { layers, hidden, weights: weights(seed, n + hidden + 1, 0.75) }
}

fn model(name: &str) -> Model {
    match name {
        "lstm.nam" => Model::Recurrent(recurrent(9, 2, 3)),
        "wavenet.nam" => Model::Net(nano()),
        "wavenet_a1_standard.nam" => Model::Net(standard()),
        "wavenet_a2_max.nam" => Model::Net(everything()),
        "my_model.nam" => Model::Net(my_model()),
        "slimmable_wavenet.nam" => Model::Net(slimmable()),
        "slimmable_container.nam" => Model::Container(vec![
            (0.25, Model::Net(my_model())),
            (0.5, Model::Recurrent(recurrent(10, 1, 2))),
            (1.0, Model::Net(conditioned())),
        ]),
        "wavenet_condition_dsp.nam" => Model::Net(conditioned()),
        _ => panic!("no such model: {}", name),
    }
}

fn load(name: &str) -> Result<NamModel, String> {
    NamModel::from_bytes(model(name).json().as_bytes())
}

// ── The plain renderer ─────────────────────────────────────────────

type Frames = Vec<Vec<f32>>;

struct Reader<'a> {
    data: &'a [f32],
    pos: usize,
}

impl<'a> Reader<'a> {
    fn next(&mut self) -> f32 {
        self.pos += 1;
        self.data[self.pos - 1]
    }
}

fn act(name: &str, x: f32) -> f32 {
    match name {
        "Tanh" => x.tanh(),
        "ReLU" => {
            if x > 0.0 {
                x
            } else {
                0.0
            }
        }
        "Sigmoid" => 1.0 / (1.0 + (-x).exp()),
        "SiLU" => x * (1.0 / (1.0 + (-x).exp())),
        "Softsign" => x / (1.0 + x.abs()),
        "Hardtanh" => x.clamp(-1.0, 1.0),
        "Hardswish" => x * (x + 3.0).clamp(0.0, 6.0) * (1.0 / 6.0),
        "Fasttanh" => {
            let ax = x.abs();
            let x2 = x * x;
            (x * (2.455_507_5 + 2.455_507_5 * ax + (0.893_229_9 + 0.821_226_7 * ax) * x2))
                / (2.445_066_3 + (2.445_066_3 + x2) * (x + 0.814_642_7 * x * ax).abs())
        }
        _ => panic!("no such activation: {}", name),
    }
}

/// A causal convolution over the whole signal, which silence precedes.
fn convolve(
    r: &mut Reader,
    x: &Frames,
    cin: usize,
    cout: usize,
    taps: usize,
    dilation: usize,
    groups: usize,
    bias: bool,
) -> Frames {
    let mut w = vec![vec![vec![0.0f32; cin]; cout]; taps];
    let (ipg, opg) = (cin / groups, cout / groups);
    for o in 0..cout {
        for j in 0..ipg {
            for row in w.iter_mut() {
                row[o][(o / opg) * ipg + j] = r.next();
            }
        }
    }
    let b: Vec<f32> = (0..cout).map(|_| if bias { r.next() } else { 0.0 }).collect();
    let silent = vec![0.0f32; cin];
    (0..x.len())
        .map(|t| {
            (0..cout)
                .map(|o| {
                    let mut acc = b[o];
                    for (k, row) in w.iter().enumerate() {
                        let back = dilation * (taps - 1 - k);
                        let frame = if back <= t { &x[t - back] } else { &silent };
                        for i in 0..cin {
                            acc += row[o][i] * frame[i];
                        }
                    }
                    acc
                })
                .collect()
        })
        .collect()
}

fn pointwise(r: &mut Reader, x: &Frames, cin: usize, cout: usize, bias: bool) -> Frames {
    convolve(r, x, cin, cout, 1, 1, 1, bias)
}

/// The weights of a modulation, applied later.
struct Film {
    amounts: Frames,
    dim: usize,
    shift: bool,
}

fn film(r: &mut Reader, c: &Frames, cond: usize, dim: usize, spec: Option<bool>) -> Option<Film> {
    spec.map(|shift| {
        let outs = if shift { 2 * dim } else { dim };
        Film { amounts: pointwise(r, c, cond, outs, true), dim, shift }
    })
}

fn modulate(x: &mut Frames, f: &Option<Film>) {
    if let Some(f) = f {
        for (frame, a) in x.iter_mut().zip(&f.amounts) {
            for d in 0..f.dim {
                frame[d] = if f.shift { frame[d] * a[d] + a[f.dim + d] } else { frame[d] * a[d] };
            }
        }
    }
}

fn render_stack(
    r: &mut Reader,
    s: &Stack,
    x: &Frames,
    c: &Frames,
    head_in: Option<&Frames>,
) -> (Frames, Frames) {
    let rows = s.head_rows();
    let mut sum: Frames = match head_in {
        Some(h) => h.iter().map(|f| f[..rows].to_vec()).collect(),
        None => vec![vec![0.0; rows]; x.len()],
    };
    let mut cur = pointwise(r, x, s.input, s.channels, false);
    let z_rows = s.z();
    for &dilation in &s.dilations {
        // The weights of a layer come before those of its modulations, so the
        // parts are read first and put to use in the order of the signal.
        let mut parts = Reader { data: r.data, pos: r.pos };
        let conv_count = z_rows * (s.channels / s.groups) * s.kernel + z_rows;
        let mixin_count = s.condition * z_rows;
        let layer_count = if s.layer1x1 { s.bottleneck * s.channels + s.channels } else { 0 };
        let head_count = s.head1x1.map_or(0, |out| s.bottleneck * out + out);
        let starts = [
            r.pos,
            r.pos + conv_count,
            r.pos + conv_count + mixin_count,
            r.pos + conv_count + mixin_count + layer_count,
        ];
        r.pos += conv_count + mixin_count + layer_count + head_count;
        let dims = s.film_dims();
        let films: Vec<Option<Film>> =
            (0..8).map(|k| film(r, c, s.condition, dims[k], s.films[k])).collect();

        let mut conv_in = cur.clone();
        modulate(&mut conv_in, &films[0]);
        parts.pos = starts[0];
        let mut y = convolve(
            &mut parts,
            &conv_in,
            s.channels,
            z_rows,
            s.kernel,
            dilation,
            s.groups,
            true,
        );
        modulate(&mut y, &films[1]);
        let mut mix_in = c.clone();
        modulate(&mut mix_in, &films[2]);
        parts.pos = starts[1];
        let mut mix = pointwise(&mut parts, &mix_in, s.condition, z_rows, false);
        modulate(&mut mix, &films[3]);
        let mut z: Frames = y
            .iter()
            .zip(&mix)
            .map(|(a, b)| a.iter().zip(b).map(|(p, q)| p + q).collect())
            .collect();
        modulate(&mut z, &films[4]);
        for frame in z.iter_mut() {
            for i in 0..s.bottleneck {
                let low = frame[i];
                let top = act(s.act, low);
                frame[i] = match s.gate {
                    Gate::Plain => top,
                    Gate::Gated => top * act(s.secondary, frame[s.bottleneck + i]),
                    Gate::Blended => {
                        let alpha = act(s.secondary, frame[s.bottleneck + i]);
                        alpha * top + (1.0 - alpha) * low
                    }
                };
            }
        }
        modulate(&mut z, &films[5]);
        let residual = if s.layer1x1 {
            parts.pos = starts[2];
            let mut l = pointwise(&mut parts, &z, s.bottleneck, s.channels, true);
            if s.gate == Gate::Blended {
                modulate(&mut l, &films[6]);
            }
            Some(l)
        } else {
            None
        };
        let skip = match s.head1x1 {
            Some(out) => {
                parts.pos = starts[3];
                let mut h = pointwise(&mut parts, &z, s.bottleneck, out, true);
                modulate(&mut h, &films[7]);
                h
            }
            None => z.clone(),
        };
        for (d, f) in sum.iter_mut().zip(&skip) {
            for i in 0..rows {
                d[i] += f[i];
            }
        }
        if let Some(l) = residual {
            for (d, f) in cur.iter_mut().zip(&l) {
                for i in 0..s.channels {
                    d[i] += f[i];
                }
            }
        }
    }
    let head = convolve(
        r,
        &sum,
        rows,
        s.head_size,
        s.head_kernel,
        s.head_dilation,
        1,
        s.head_bias,
    );
    (cur, head)
}

fn render_net(net: &Net, x: &Frames) -> Frames {
    let c = match &net.condition {
        Some(cd) => render_net(cd, x),
        None => x.clone(),
    };
    let mut r = Reader { data: &net.weights, pos: 0 };
    let mut cur = x.clone();
    let mut head: Option<Frames> = None;
    for s in &net.stacks {
        let (next, h) = render_stack(&mut r, s, &cur, &c, head.as_ref());
        cur = next;
        head = Some(h);
    }
    let scale = *net.weights.last().unwrap();
    let mut y: Frames =
        head.unwrap().iter().map(|f| f.iter().map(|v| scale * v).collect()).collect();
    if let Some((channels, out, kernels)) = &net.post {
        let mut cin = net.stacks.last().unwrap().head_size;
        for (i, k) in kernels.iter().enumerate() {
            let cout = if i + 1 == kernels.len() { *out } else { *channels };
            for f in y.iter_mut() {
                for v in f.iter_mut() {
                    *v = act("ReLU", *v);
                }
            }
            y = convolve(&mut r, &y, cin, cout, *k, 1, 1, true);
            cin = cout;
        }
    }
    assert_eq!(r.pos + 1, net.weights.len());
    y
}

fn render_recurrent(m: &Recurrent, x: &[f64]) -> Vec<f64> {
    let h = m.hidden;
    let mut r = Reader { data: &m.weights, pos: 0 };
    let mut cells = Vec::new();
    for i in 0..m.layers {
        let cin = if i == 0 { 1 } else { h };
        let w: Vec<Vec<f32>> =
            (0..4 * h).map(|_| (0..cin + h).map(|_| r.next()).collect()).collect();
        let b: Vec<f32> = (0..4 * h).map(|_| r.next()).collect();
        let h0: Vec<f32> = (0..h).map(|_| r.next()).collect();
        let c0: Vec<f32> = (0..h).map(|_| r.next()).collect();
        cells.push((w, b, h0, c0));
    }
    let head: Vec<f32> = (0..h).map(|_| r.next()).collect();
    let head_bias = r.next();
    x.iter()
        .map(|&v| {
            let mut input = vec![v as f32];
            for (w, b, hs, cs) in cells.iter_mut() {
                let mut xh = input.clone();
                xh.extend_from_slice(hs);
                let g: Vec<f32> = (0..4 * h)
                    .map(|row| {
                        let mut sum = 0.0f32;
                        for (p, q) in w[row].iter().zip(&xh) {
                            sum += p * q;
                        }
                        sum + b[row]
                    })
                    .collect();
                for i in 0..h {
                    cs[i] = act("Sigmoid", g[h + i]) * cs[i]
                        + act("Sigmoid", g[i]) * g[2 * h + i].tanh();
                    hs[i] = act("Sigmoid", g[3 * h + i]) * cs[i].tanh();
                }
                input = hs.clone();
            }
            let mut sum = 0.0f32;
            for (p, q) in head.iter().zip(&input) {
                sum += p * q;
            }
            (sum + head_bias) as f64
        })
        .collect()
}

fn reach(net: &Net) -> usize {
    let mut n = match &net.condition {
        Some(cd) => reach(cd),
        None => 1,
    };
    for s in &net.stacks {
        for d in &s.dilations {
            n += d * (s.kernel - 1);
        }
        n += s.head_dilation * (s.head_kernel - 1);
    }
    if let Some((_, _, kernels)) = &net.post {
        for k in kernels {
            n += k - 1;
        }
    }
    n
}

/// The output of a model that silence has brought to rest in whole blocks.
fn render(m: &Model, input: &[f64], buffer_size: usize) -> Vec<f64> {
    match m {
        Model::Net(net) => {
            let warm = (reach(net) + buffer_size - 1) / buffer_size * buffer_size;
            let mut x: Frames = vec![vec![0.0f32]; warm];
            x.extend(input.iter().map(|&v| vec![v as f32]));
            let y = render_net(net, &x);
            assert_eq!(y[0].len(), net.out_channels());
            y[warm..].iter().map(|f| f[0] as f64).collect()
        }
        Model::Recurrent(r) => {
            let warm = (24000 + buffer_size - 1) / buffer_size * buffer_size;
            let mut x = vec![0.0f64; warm];
            x.extend_from_slice(input);
            render_recurrent(r, &x)[warm..].to_vec()
        }
        Model::Container(subs) => render(&subs.last().unwrap().1, input, buffer_size),
    }
}

fn run_reference(
    name: &str,
    num_samples: usize,
    sample_rate: f64,
    buffer_size: usize,
) -> Vec<f64> {
    render(&model(name), &sine_440(sample_rate, num_samples, 0.5), buffer_size)
}

fn process_blocks(m: &mut NamModel, input: &[f64], buffer_size: usize) -> Vec<f64> {
    let input = to_wide(input);
    let mut output = vec![Wide(0.0); input.len()];
    for pos in (0..input.len()).step_by(buffer_size) {
        let end = (pos + buffer_size).min(input.len());
        m.process(&input[pos..end], &mut output[pos..end]);
    }
    from_wide(&output)
}

fn run_rust(name: &str, num_samples: usize, sample_rate: f64, buffer_size: usize) -> Vec<f64> {
    let mut m = load(name).unwrap();
    assert!(m.can_reset(buffer_size));
    m.reset(Wide(sample_rate), buffer_size);
    process_blocks(&mut m, &sine_440(sample_rate, num_samples, 0.5), buffer_size)
}

fn assert_same(name: &str, expected: &[f64], actual: &[f64]) {
    assert_eq!(expected.len(), actual.len());
    for (i, (a, b)) in expected.iter().zip(actual).enumerate() {
        let diff = (a - b).abs();
        assert!(diff < 1e-12, "{}: sample {}: expected {}, got {}", name, i, a, b);
    }
}

// ── Model loading ──────────────────────────────────────────────────

#[test]
fn model_is_send() {
    fn assert_send<T: Send>() {}
    assert_send::<NamModel>();
}

#[test]
fn from_bytes_rejects_garbage() {
    assert!(NamModel::from_bytes(b"not json").is_err());
}

#[test]
fn load_lstm() {
    let model = load("lstm.nam").expect("Failed to load LSTM model");
    let meta = model.metadata();
    assert_eq!(meta.input_channels, 1);
    assert_eq!(meta.output_channels, 1);
}

#[test]
fn load_wavenet_nano() {
    let model = load("wavenet.nam").expect("Failed to load WaveNet nano model");
    assert_eq!(model.input_channels(), 1);
}

#[test]
fn load_wavenet_standard() {
    let model = load("wavenet_a1_standard.nam").expect("Failed to load WaveNet standard model");
    assert_eq!(model.input_channels(), 1);
}

#[test]
fn load_wavenet_max() {
    let model = load("wavenet_a2_max.nam").expect("Failed to load WaveNet max model");
    assert_eq!(model.input_channels(), 1);
}

#[test]
fn load_my_model() {
    let model = load("my_model.nam").expect("Failed to load my_model");
    assert_eq!(model.input_channels(), 1);
}

#[test]
fn load_slimmable_wavenet() {
    let model = load("slimmable_wavenet.nam").expect("Failed to load slimmable WaveNet");
    assert_eq!(model.input_channels(), 1);
}

#[test]
fn load_slimmable_container() {
    let model = load("slimmable_container.nam").expect("Failed to load slimmable container");
    assert_eq!(model.input_channels(), 1);
}

#[test]
fn load_wavenet_condition_dsp() {
    let model = load("wavenet_condition_dsp.nam").expect("Failed to load conditional DSP model");
    assert_eq!(model.input_channels(), 1);
}

// ── Processing ─────────────────────────────────────────────────────

fn assert_alive(name: &str) {
    let output = run_rust(name, 4800, 48000.0, 512);
    for (i, &s) in output.iter().enumerate() {
        assert!(s.is_finite(), "{} NaN/Inf at {}", name, i);
    }
    let energy: f64 = output.iter().map(|s| s * s).sum::<f64>() / output.len() as f64;
    assert!(energy > 1e-10, "{} output is silent: energy={}", name, energy);
}

#[test]
fn lstm_process_sine() {
    assert_alive("lstm.nam");
}

#[test]
fn wavenet_nano_process_sine() {
    assert_alive("wavenet.nam");
}

#[test]
fn wavenet_standard_process_sine() {
    assert_alive("wavenet_a1_standard.nam");
}

#[test]
fn wavenet_max_process_sine() {
    assert_alive("wavenet_a2_max.nam");
}

#[test]
fn my_model_process_sine() {
    assert_alive("my_model.nam");
}

// ── Behaviour ──────────────────────────────────────────────────────

#[test]
fn silence_produces_near_silence() {
    let mut model = load("wavenet.nam").unwrap();
    model.reset(Wide(48000.0), 512);
    let silence = vec![Wide(0.0); 512];
    let mut discard = vec![Wide(0.0); 512];
    for _ in 0..20 {
        model.process(&silence, &mut discard);
    }
    let mut output = vec![Wide(0.0); 512];
    model.process(&silence, &mut output);
    let peak = output.iter().map(|s| s.0.abs()).fold(0.0f64, f64::max);
    assert!(peak < 0.1, "Silence input should produce near-silence, got peak={}", peak);
}

#[test]
fn different_models_produce_different_output() {
    let out_lstm = run_rust("lstm.nam", 4800, 48000.0, 512);
    let out_wavenet = run_rust("wavenet.nam", 4800, 48000.0, 512);
    let diff: f64 = out_lstm
        .iter()
        .zip(out_wavenet.iter())
        .map(|(a, b)| (a - b).abs())
        .sum::<f64>()
        / 4800.0;
    assert!(
        diff > 0.001,
        "LSTM and WaveNet should produce different output: avg_diff={}",
        diff
    );
}

#[test]
fn reset_clears_state() {
    let mut model = load("wavenet.nam").unwrap();
    let input = sine_440(48000.0, 4800, 0.5);
    model.reset(Wide(48000.0), 512);
    let out1 = process_blocks(&mut model, &input, 512);
    model.reset(Wide(48000.0), 512);
    let out2 = process_blocks(&mut model, &input, 512);
    let diff: f64 =
        out1.iter().zip(out2.iter()).map(|(a, b)| (a - b).abs()).sum::<f64>() / 4800.0;
    assert!(diff < 1e-10, "Reset should produce identical output: avg_diff={}", diff);
    assert_eq!(out1, out2);
}

#[test]
fn metadata_sample_rate() {
    let model = load("wavenet_a1_standard.nam").unwrap();
    let meta = model.metadata();
    if let Some(sr) = meta.expected_sample_rate {
        assert!(sr.0 > 0.0, "Expected positive sample rate, got {}", sr.0);
    }
    assert_eq!(meta.expected_sample_rate, Some(Wide(48000.0)));
    assert_eq!(meta.loudness, Some(Wide(-18.5)));
    assert_eq!(meta.input_level, Some(Wide(12.25)));
    assert_eq!(meta.output_level, None);
}

#[test]
fn process_varying_buffer_sizes() {
    let mut model = load("lstm.nam").unwrap();
    model.reset(Wide(48000.0), 2048);
    let input = to_wide(&sine_440(48000.0, 9600, 0.5));
    let mut output = vec![Wide(0.0); 9600];
    let buffer_sizes = [64, 128, 256, 512, 1024, 128, 64, 512, 256, 1024, 512];
    let mut pos = 0;
    for &bs in buffer_sizes.iter().cycle() {
        if pos >= 9600 {
            break;
        }
        let end = (pos + bs).min(9600);
        model.process(&input[pos..end], &mut output[pos..end]);
        pos = end;
    }
    for (i, &s) in output.iter().enumerate() {
        assert!(s.0.is_finite(), "Varying buffer NaN/Inf at {}", i);
    }
}

#[test]
fn process_single_sample() {
    let mut model = load("wavenet.nam").unwrap();
    model.reset(Wide(48000.0), 1);
    let mut output = [Wide(0.0); 1];
    for i in 0..480 {
        let input = [Wide((2.0 * PI * 440.0 * i as f64 / 48000.0).sin() * 0.5)];
        model.process(&input, &mut output);
        assert!(output[0].0.is_finite(), "Single-sample NaN at {}", i);
    }
}

// ── Exact comparison against the plain renderer ────────────────────

fn assert_bit_exact(name: &str, num_samples: usize, buffer_size: usize) {
    let expected = run_reference(name, num_samples, 48000.0, buffer_size);
    let actual = run_rust(name, num_samples, 48000.0, buffer_size);
    assert_same(name, &expected, &actual);
}

#[test]
fn bitexact_lstm() {
    assert_bit_exact("lstm.nam", 4800, 512);
}

#[test]
fn bitexact_wavenet_nano() {
    assert_bit_exact("wavenet.nam", 4800, 512);
}

#[test]
fn bitexact_wavenet_standard() {
    assert_bit_exact("wavenet_a1_standard.nam", 4800, 512);
}

#[test]
fn bitexact_wavenet_max() {
    assert_bit_exact("wavenet_a2_max.nam", 4800, 512);
}

#[test]
fn bitexact_my_model() {
    assert_bit_exact("my_model.nam", 4800, 512);
}

#[test]
fn bitexact_slimmable_wavenet() {
    assert_bit_exact("slimmable_wavenet.nam", 4800, 512);
}

#[test]
fn bitexact_slimmable_container() {
    assert_bit_exact("slimmable_container.nam", 4800, 512);
}

#[test]
fn bitexact_wavenet_condition_dsp() {
    assert_bit_exact("wavenet_condition_dsp.nam", 4800, 512);
}

#[test]
fn bitexact_small_buffer() {
    assert_bit_exact("wavenet.nam", 4800, 64);
}

#[test]
fn bitexact_large_buffer() {
    assert_bit_exact("lstm.nam", 4800, 2048);
}

#[test]
fn bitexact_long_render() {
    assert_bit_exact("wavenet.nam", 48000, 512);
}

// ── Sizes ──────────────────────────────────────────────────────────

/// A stack with the first `channels` channels of its layers.
fn slim_stack(s: &Stack, channels: usize, input: usize, head_size: usize) -> Stack {
    let mut t = s.clone();
    t.channels = channels;
    t.bottleneck = channels;
    t.input = input;
    t.head_size = head_size;
    t
}

/// Keep the weights of the first inputs and outputs of a convolution.
fn keep(
    r: &mut Reader,
    out: &mut Vec<f32>,
    full: (usize, usize),
    slim: (usize, usize),
    taps: usize,
    bias: bool,
) {
    for o in 0..full.1 {
        for i in 0..full.0 {
            for _ in 0..taps {
                let w = r.next();
                if o < slim.1 && i < slim.0 {
                    out.push(w);
                }
            }
        }
    }
    if bias {
        for o in 0..full.1 {
            let b = r.next();
            if o < slim.1 {
                out.push(b);
            }
        }
    }
}

fn slimmed(net: &Net, targets: &[usize]) -> Net {
    let mut r = Reader { data: &net.weights, pos: 0 };
    let mut out = Vec::new();
    let mut stacks = Vec::new();
    let n = net.stacks.len();
    for (i, s) in net.stacks.iter().enumerate() {
        let input = if i > 0 { targets[i - 1] } else { s.input };
        let head = if i + 1 < n { targets[i + 1] } else { s.head_size };
        let t = slim_stack(s, targets[i], input, head);
        keep(&mut r, &mut out, (s.input, s.channels), (t.input, t.channels), 1, false);
        for _ in &s.dilations {
            keep(&mut r, &mut out, (s.channels, s.z()), (t.channels, t.z()), s.kernel, true);
            keep(&mut r, &mut out, (s.condition, s.z()), (s.condition, t.z()), 1, false);
            keep(
                &mut r,
                &mut out,
                (s.bottleneck, s.channels),
                (t.bottleneck, t.channels),
                1,
                true,
            );
        }
        keep(
            &mut r,
            &mut out,
            (s.bottleneck, s.head_size),
            (t.bottleneck, t.head_size),
            1,
            s.head_bias,
        );
        stacks.push(t);
    }
    out.push(r.next());
    Net { stacks, post: None, condition: None, weights: out }
}

#[test]
fn slimmable_wavenet_sizes() {
    let full = slimmable();
    let input = sine_440(48000.0, 1200, 0.5);
    for (val, targets) in [
        (0.0, vec![1, 1]),
        (0.4, vec![2, 2]),
        (-3.0, vec![1, 1]),
        (1.0, vec![3, 3]),
        (7.0, vec![3, 3]),
    ] {
        let mut m = load("slimmable_wavenet.nam").unwrap();
        m.reset(Wide(48000.0), 128);
        assert!(m.can_select(Wide(val)));
        assert!(m.set_slimmable_size(Wide(val)));
        let actual = process_blocks(&mut m, &input, 128);
        let expected = render(&Model::Net(slimmed(&full, &targets)), &input, 128);
        assert_same("slimmable_wavenet.nam", &expected, &actual);
    }
}

#[test]
fn full_size_is_the_default_and_the_way_back() {
    let input = sine_440(48000.0, 600, 0.5);
    let mut plain = load("slimmable_wavenet.nam").unwrap();
    plain.reset(Wide(48000.0), 64);
    let expected = process_blocks(&mut plain, &input, 64);
    let mut m = load("slimmable_wavenet.nam").unwrap();
    m.reset(Wide(48000.0), 64);
    assert!(m.set_slimmable_size(Wide(0.0)));
    let reduced = process_blocks(&mut m, &input, 64);
    assert_ne!(expected, reduced);
    assert!(m.set_slimmable_size(Wide(1.0)));
    assert_eq!(expected, process_blocks(&mut m, &input, 64));
}

#[test]
fn container_sizes() {
    let Model::Container(subs) = model("slimmable_container.nam") else {
        panic!("not a container");
    };
    let input = sine_440(48000.0, 600, 0.5);
    for (val, index) in [(0.0, 0), (0.25, 1), (0.4, 1), (0.5, 2), (1.0, 2), (9.0, 2)] {
        let mut m = load("slimmable_container.nam").unwrap();
        m.reset(Wide(48000.0), 128);
        assert!(m.can_select(Wide(val)));
        assert!(m.set_slimmable_size(Wide(val)));
        let actual = process_blocks(&mut m, &input, 128);
        let expected = render(&subs[index].1, &input, 128);
        assert_same("slimmable_container.nam", &expected, &actual);
    }
}

#[test]
fn ordinary_models_have_no_sizes() {
    let mut m = load("wavenet.nam").unwrap();
    assert!(!m.set_slimmable_size(Wide(0.5)));
    let mut m = load("lstm.nam").unwrap();
    assert!(!m.set_slimmable_size(Wide(0.5)));
}

#[test]
fn selecting_the_same_size_keeps_the_state() {
    let input = sine_440(48000.0, 400, 0.5);
    let mut a = load("slimmable_wavenet.nam").unwrap();
    let mut b = load("slimmable_wavenet.nam").unwrap();
    a.reset(Wide(48000.0), 64);
    b.reset(Wide(48000.0), 64);
    assert_eq!(process_blocks(&mut a, &input, 64), process_blocks(&mut b, &input, 64));
    assert!(b.set_slimmable_size(Wide(1.0)));
    assert_eq!(process_blocks(&mut a, &input, 64), process_blocks(&mut b, &input, 64));
}

// ── Blocks ─────────────────────────────────────────────────────────

#[test]
fn block_boundaries_do_not_show() {
    for name in ["wavenet.nam", "wavenet_a1_standard.nam", "wavenet_a2_max.nam", "lstm.nam"] {
        let input = sine_440(48000.0, 700, 0.5);
        let mut whole = load(name).unwrap();
        whole.reset(Wide(48000.0), 1000);
        let expected = process_blocks(&mut whole, &input, 700);
        let mut pieces = load(name).unwrap();
        pieces.reset(Wide(48000.0), 1000);
        let wide = to_wide(&input);
        let mut out = vec![Wide(0.0); 700];
        for (from, to) in [(0, 1), (1, 100), (100, 101), (101, 350), (350, 700)] {
            pieces.process(&wide[from..to], &mut out[from..to]);
        }
        assert_eq!(expected, from_wide(&out), "{}", name);
    }
}

#[test]
fn long_blocks_are_processed_in_pieces() {
    let input = sine_440(48000.0, 1000, 0.5);
    let mut a = load("wavenet.nam").unwrap();
    a.reset(Wide(48000.0), 64);
    let expected = process_blocks(&mut a, &input, 64);
    let mut b = load("wavenet.nam").unwrap();
    b.reset(Wide(48000.0), 64);
    assert_eq!(expected, process_blocks(&mut b, &input, 1000));
}

#[test]
fn a_model_that_was_never_reset_resets_itself() {
    let input = sine_440(48000.0, 300, 0.5);
    let mut a = load("wavenet.nam").unwrap();
    assert!(a.can_reset(4096));
    a.reset(Wide(-1.0), 4096);
    let mut b = load("wavenet.nam").unwrap();
    assert_eq!(process_blocks(&mut a, &input, 300), process_blocks(&mut b, &input, 300));
    // A request for no room at all gives room for one sample.
    let mut c = load("wavenet.nam").unwrap();
    c.reset(Wide(48000.0), 0);
    let mut d = load("wavenet.nam").unwrap();
    d.reset(Wide(48000.0), 1);
    assert_eq!(process_blocks(&mut c, &input, 300), process_blocks(&mut d, &input, 300));
}

#[test]
fn single_precision_blocks() {
    let input = sine_440(48000.0, 300, 0.5);
    let narrow: Vec<Num> = input.iter().map(|&v| Num(v as f32)).collect();
    let wide: Vec<Wide> = narrow.iter().map(|v| Wide(v.0 as f64)).collect();
    let text = model("wavenet.nam").json();
    let mut a = PureNamModel::<Num>::from_json(&text).unwrap();
    let mut b = PureNamModel::<Num>::from_json(&text).unwrap();
    a.reset(Wide(48000.0), 64);
    b.reset(Wide(48000.0), 64);
    let mut out_a = vec![Num(0.0); 300];
    let mut out_b = vec![Wide(0.0); 300];
    a.process_f32(&narrow, &mut out_a);
    b.process(&wide, &mut out_b);
    for (p, q) in out_a.iter().zip(&out_b) {
        assert_eq!(p.0, q.0 as f32);
    }
    assert_eq!(a.expected_sample_rate(), Some(Wide(48000.0)));
    assert_eq!(a.loudness(), Some(Wide(-18.5)));
    assert_eq!(a.input_level(), Some(Wide(12.25)));
    assert_eq!(a.output_level(), None);
    assert_eq!(a.input_channels(), 1);
    assert_eq!(a.output_channels(), 1);
}
