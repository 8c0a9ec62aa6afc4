//! Activation functions.

use crate::json::{same_text, Json, Tree};
use crate::num::{lawful, Sample, Scalar};
use crate::pure::mat::{cell, lemma_cell, lemma_place, Mat};
use crate::pure::nn::overlay;
use crate::render::{rendered, with_json};
use crate::text::glue;
use vstd::arithmetic::mul::*;
use vstd::prelude::*;

verus! {

/// An activation function as a mathematical function.
pub enum Act<S> {
    /// Hyperbolic tangent.
    Tanh,
    /// Clamp to the unit interval around zero.
    Hardtanh,
    /// A rational approximation of the hyperbolic tangent.
    Fasttanh,
    /// Zero below zero.
    ReLU,
    /// A slope below zero.
    LeakyReLU(S),
    /// A slope below zero that depends on the position in the buffer.
    PReLU(Seq<S>),
    /// The logistic function.
    Sigmoid,
    /// The argument times its logistic function.
    SiLU,
    /// The argument times a clamped ramp.
    Hardswish,
    /// A clamp with a slope beyond each end.
    LeakyHardtanh { min_val: S, max_val: S, min_slope: S, max_slope: S },
    /// The argument divided by one plus its absolute value.
    Softsign,
}

/// The whole number `n`.
pub open spec fn whole<S: Scalar>(n: i64) -> S {
    S::literal_spec(n, 0)
}

/// The logistic function.
pub open spec fn sigmoid_spec<S: Scalar>(x: S) -> S {
    whole::<S>(1).div_spec(whole::<S>(1).add_spec(x.neg_spec().exp_spec()))
}

/// The rational approximation of the hyperbolic tangent.
pub open spec fn fast_tanh_spec<S: Scalar>(x: S) -> S {
    let ax = x.abs_spec();
    let x2 = x.mul_spec(x);
    let a = S::literal_spec(24555075, 7);
    let b = S::literal_spec(8932299, 7);
    let c = S::literal_spec(8212267, 7);
    let d = S::literal_spec(24450663, 7);
    let e = S::literal_spec(8146427, 7);
    x.mul_spec(
        a.add_spec(a.mul_spec(ax)).add_spec(b.add_spec(c.mul_spec(ax)).mul_spec(x2)),
    ).div_spec(
        d.add_spec(
            d.add_spec(x2).mul_spec(x.add_spec(e.mul_spec(x).mul_spec(ax)).abs_spec()),
        ),
    )
}

/// `x`, or the end of the interval that it lies beyond.
pub open spec fn clamped<S: Scalar>(x: S, min: S, max: S) -> S {
    if x.lt_spec(min) {
        min
    } else if max.lt_spec(x) {
        max
    } else {
        x
    }
}

/// The value of an activation function at `x`, for the number at place `pos`
/// of a buffer.
pub open spec fn activated<S: Scalar>(a: Act<S>, x: S, pos: int) -> S {
    match a {
        Act::Tanh => x.tanh_spec(),
        Act::Hardtanh => clamped(x, whole::<S>((-1) as i64), whole::<S>(1)),
        Act::Fasttanh => fast_tanh_spec(x),
        Act::ReLU => if S::zero_spec().lt_spec(x) {
            x
        } else {
            S::zero_spec()
        },
        Act::LeakyReLU(slope) => if S::zero_spec().lt_spec(x) {
            x
        } else {
            slope.mul_spec(x)
        },
        Act::PReLU(slopes) => if S::zero_spec().lt_spec(x) {
            x
        } else {
            slopes[pos % slopes.len() as int].mul_spec(x)
        },
        Act::Sigmoid => sigmoid_spec(x),
        Act::SiLU => x.mul_spec(sigmoid_spec(x)),
        Act::Hardswish => x.mul_spec(
            clamped(x.add_spec(whole::<S>(3)), S::zero_spec(), whole::<S>(6)),
        ).mul_spec(whole::<S>(1).div_spec(whole::<S>(6))),
        Act::LeakyHardtanh { min_val, max_val, min_slope, max_slope } => if x.lt_spec(min_val) {
            x.sub_spec(min_val).mul_spec(min_slope).add_spec(min_val)
        } else if max_val.lt_spec(x) {
            x.sub_spec(max_val).mul_spec(max_slope).add_spec(max_val)
        } else {
            x
        },
        Act::Softsign => x.div_spec(whole::<S>(1).add_spec(x.abs_spec())),
    }
}

/// The activation function has a value everywhere: it does not choose from an
/// empty list of slopes.
pub open spec fn total<S>(a: Act<S>) -> bool {
    a matches Act::PReLU(slopes) ==> slopes.len() > 0
}

/// The activation function has a value at `x`: it does not choose a slope for
/// it from an empty list.
pub open spec fn defined<S: Scalar>(a: Act<S>, x: S) -> bool {
    total(a) || S::zero_spec().lt_spec(x)
}

/// The activation function has a value at every number of a block.
pub open spec fn block_defined<S: Scalar>(a: Act<S>, x: Seq<Seq<S>>) -> bool {
    forall|f: int, r: int|
        0 <= f < x.len() && 0 <= r < x[f].len() ==> defined(a, #[trigger] x[f][r])
}

/// An activation function applied to a buffer.
pub open spec fn activated_buffer<S: Scalar>(a: Act<S>, x: Seq<S>) -> Seq<S> {
    Seq::new(x.len(), |p: int| activated(a, x[p], p))
}

/// An activation function applied to frame `f` of a block, whose frames lie
/// one after the other in a buffer.
pub open spec fn activated_frame<S: Scalar>(a: Act<S>, x: Seq<S>, f: int) -> Seq<S> {
    Seq::new(x.len(), |r: int| activated(a, x[r], cell(x.len() as int, f, r)))
}

/// An activation function applied to a block.
pub open spec fn activated_block<S: Scalar>(a: Act<S>, x: Seq<Seq<S>>) -> Seq<Seq<S>> {
    Seq::new(x.len(), |f: int| activated_frame(a, x[f], f))
}

/// An activation function.
pub enum Activation<S> {
    /// Hyperbolic tangent.
    Tanh,
    /// Clamp to the unit interval around zero.
    Hardtanh,
    /// A rational approximation of the hyperbolic tangent.
    Fasttanh,
    /// Zero below zero.
    ReLU,
    /// A slope below zero.
    LeakyReLU(S),
    /// A slope below zero that depends on the position in the buffer.
    PReLU(Vec<S>),
    /// The logistic function.
    Sigmoid,
    /// The argument times its logistic function.
    SiLU,
    /// The argument times a clamped ramp.
    Hardswish,
    /// A clamp with a slope beyond each end.
    LeakyHardtanh { min_val: S, max_val: S, min_slope: S, max_slope: S },
    /// The argument divided by one plus its absolute value.
    Softsign,
}

/// The logistic function.
pub fn sigmoid<S: Scalar>(x: S) -> (r: S)
    requires
        lawful::<S>(),
    ensures
        r == sigmoid_spec(x),
{
    S::literal(1, 0).div(S::literal(1, 0).add(x.neg().exp()))
}

/// A rational approximation of the hyperbolic tangent.
pub fn fast_tanh<S: Scalar>(x: S) -> (r: S)
    requires
        lawful::<S>(),
    ensures
        r == fast_tanh_spec(x),
{
    let ax = x.abs();
    let x2 = x.mul(x);
    let a = S::literal(24555075, 7);
    let b = S::literal(8932299, 7);
    let c = S::literal(8212267, 7);
    let d = S::literal(24450663, 7);
    let e = S::literal(8146427, 7);
    let top = x.mul(a.add(a.mul(ax)).add(b.add(c.mul(ax)).mul(x2)));
    let bottom = d.add(d.add(x2).mul(x.add(e.mul(x).mul(ax)).abs()));
    top.div(bottom)
}

fn clamp<S: Scalar>(x: S, min: S, max: S) -> (r: S)
    requires
        lawful::<S>(),
    ensures
        r == clamped(x, min, max),
{
    if x.lt(min) {
        min
    } else if max.lt(x) {
        max
    } else {
        x
    }
}

impl<S: Scalar> Activation<S> {
    /// The function itself.
    pub open spec fn model(&self) -> Act<S> {
        match *self {
            Activation::Tanh => Act::Tanh,
            Activation::Hardtanh => Act::Hardtanh,
            Activation::Fasttanh => Act::Fasttanh,
            Activation::ReLU => Act::ReLU,
            Activation::LeakyReLU(slope) => Act::LeakyReLU(slope),
            Activation::PReLU(slopes) => Act::PReLU(slopes@),
            Activation::Sigmoid => Act::Sigmoid,
            Activation::SiLU => Act::SiLU,
            Activation::Hardswish => Act::Hardswish,
            Activation::LeakyHardtanh { min_val, max_val, min_slope, max_slope } =>
                Act::LeakyHardtanh { min_val, max_val, min_slope, max_slope },
            Activation::Softsign => Act::Softsign,
        }
    }

    /// The same function once more.
    pub fn duplicate(&self) -> (r: Self)
        ensures
            r.model() == self.model(),
    {
        match self {
            Activation::Tanh => Activation::Tanh,
            Activation::Hardtanh => Activation::Hardtanh,
            Activation::Fasttanh => Activation::Fasttanh,
            Activation::ReLU => Activation::ReLU,
            Activation::LeakyReLU(slope) => Activation::LeakyReLU(*slope),
            Activation::PReLU(slopes) => Activation::PReLU(
                vstd::slice::slice_to_vec(slopes.as_slice()),
            ),
            Activation::Sigmoid => Activation::Sigmoid,
            Activation::SiLU => Activation::SiLU,
            Activation::Hardswish => Activation::Hardswish,
            Activation::LeakyHardtanh { min_val, max_val, min_slope, max_slope } => {
                Activation::LeakyHardtanh {
                    min_val: *min_val,
                    max_val: *max_val,
                    min_slope: *min_slope,
                    max_slope: *max_slope,
                }
            },
            Activation::Softsign => Activation::Softsign,
        }
    }

    /// Whether the function has a value everywhere.
    pub fn is_total(&self) -> (r: bool)
        ensures
            r == total(self.model()),
    {
        match self {
            Activation::PReLU(slopes) => slopes.len() > 0,
            _ => true,
        }
    }

    /// The value at `x`, for the number at place `pos` of a buffer.
    pub fn scalar(&self, x: S, pos: usize) -> (r: S)
        requires
            lawful::<S>(),
            defined(self.model(), x),
        ensures
            r == activated(self.model(), x, pos as int),
    {
        match self {
            Activation::Tanh => x.tanh(),
            Activation::Hardtanh => clamp(x, S::literal(-1, 0), S::literal(1, 0)),
            Activation::Fasttanh => fast_tanh(x),
            Activation::ReLU => {
                if S::zero().lt(x) {
                    x
                } else {
                    S::zero()
                }
            },
            Activation::LeakyReLU(slope) => {
                if S::zero().lt(x) {
                    x
                } else {
                    slope.mul(x)
                }
            },
            Activation::PReLU(slopes) => {
                if S::zero().lt(x) {
                    x
                } else {
                    slopes[pos % slopes.len()].mul(x)
                }
            },
            Activation::Sigmoid => sigmoid(x),
            Activation::SiLU => x.mul(sigmoid(x)),
            Activation::Hardswish => {
                let t = clamp(x.add(S::literal(3, 0)), S::zero(), S::literal(6, 0));
                x.mul(t).mul(S::literal(1, 0).div(S::literal(6, 0)))
            },
            Activation::LeakyHardtanh { min_val, max_val, min_slope, max_slope } => {
                if x.lt(*min_val) {
                    x.sub(*min_val).mul(*min_slope).add(*min_val)
                } else if max_val.lt(x) {
                    x.sub(*max_val).mul(*max_slope).add(*max_val)
                } else {
                    x
                }
            },
            Activation::Softsign => x.div(S::literal(1, 0).add(x.abs())),
        }
    }

    /// Apply the function to a buffer in place.
    pub fn apply(&self, data: &mut [S])
        requires
            lawful::<S>(),
            forall|q: int| 0 <= q < old(data)@.len() ==> defined(
                self.model(),
                #[trigger] old(data)@[q],
            ),
        ensures
            final(data)@ == activated_buffer(self.model(), old(data)@),
    {
        let n = data.len();
        let mut p: usize = 0;
        while p < n
            invariant
                lawful::<S>(),
                forall|q: int| 0 <= q < old(data)@.len() ==> defined(
                    self.model(),
                    #[trigger] old(data)@[q],
                ),
                n == data@.len(),
                n == old(data)@.len(),
                p <= n,
                forall|q: int|
                    0 <= q < p ==> #[trigger] data@[q] == activated(
                        self.model(),
                        old(data)@[q],
                        q,
                    ),
                forall|q: int| p <= q < n ==> #[trigger] data@[q] == old(data)@[q],
            decreases n - p,
        {
            let v = self.scalar(data[p], p);
            data[p] = v;
            p += 1;
        }
        assert(data@ =~= activated_buffer(self.model(), old(data)@));
    }

    /// Apply the function to the first `n` frames of a matrix, which lie one
    /// after the other.
    pub fn apply_left(&self, m: &mut Mat<S>, n: usize)
        requires
            lawful::<S>(),
            block_defined(self.model(), old(m)@.take(n as int)),
            old(m).wf(),
            n <= old(m).cols,
        ensures
            final(m).shaped(old(m).rows as nat, old(m).cols as nat),
            final(m)@ == overlay(
                old(m)@,
                activated_block(self.model(), old(m)@.take(n as int)),
            ),
    {
        proof {
            let rows = m.rows as int;
            let x = m@.take(n as int);
            lemma_mul_inequality(n as int, m.cols as int, rows);
            assert forall|p: int| 0 <= p < n * rows implies defined(
                self.model(),
                #[trigger] m.data@[p],
            ) by {
                lemma_place(rows, n as int, p);
                assert(x[p / rows][p % rows] == m.data@[p]);
            }
        }
        self.apply(m.left_cols_mut(n));
        proof {
            let rows = m.rows as int;
            let cols = m.cols as int;
            let a = self.model();
            let want = overlay(old(m)@, activated_block(a, old(m)@.take(n as int)));
            lemma_mul_inequality(n as int, cols, rows);
            assert forall|f: int| 0 <= f < cols implies #[trigger] m@[f] == want[f] by {
                assert forall|r: int| 0 <= r < rows implies m@[f][r] == want[f][r] by {
                    lemma_cell(rows, cols, f, r);
                    if f < n {
                        lemma_cell(rows, n as int, f, r);
                    } else {
                        lemma_mul_inequality(n as int, f, rows);
                    }
                }
                assert(m@[f] =~= want[f]);
            }
            assert(m@ =~= want);
        }
    }
}

// Configuration ==============================================================

/// A JSON number as a scalar.
pub open spec fn scalar_of<S: Scalar>(t: Tree) -> Option<S> {
    match t.as_real() {
        Some(bits) => Some(S::narrow_spec(S::Wide::from_bits_spec(bits))),
        None => None,
    }
}

/// A numeric field of a JSON object as a scalar.
pub open spec fn scalar_field_spec<S: Scalar>(t: Tree, key: Seq<char>) -> Option<S> {
    match t.get(key) {
        Some(v) => scalar_of(v),
        None => None,
    }
}

/// The value of a field, or `fallback` where it is missing.
pub open spec fn scalar_or<S: Scalar>(t: Tree, key: Seq<char>, fallback: S) -> S {
    match scalar_field_spec(t, key) {
        Some(v) => v,
        None => fallback,
    }
}

/// The bit pattern of one hundredth.
pub const HUNDREDTH_BITS: u64 = 0x3F84_7AE1_47AE_147B;

/// The slopes of a `PReLU` configuration: a list, or a single slope.
pub open spec fn slopes_of<S: Scalar>(t: Tree) -> Seq<S> {
    match t.get("negative_slopes"@) {
        Some(Tree::Array(items)) => Seq::new(
            items.len(),
            |i: int|
                match scalar_of::<S>(items[i]) {
                    Some(v) => v,
                    None => S::narrow_spec(S::Wide::from_bits_spec(HUNDREDTH_BITS)),
                },
        ),
        _ => seq![scalar_or::<S>(t, "negative_slope"@, S::literal_spec(1, 2))],
    }
}

/// The name of the function that a configuration asks for.
pub open spec fn act_name(t: Tree) -> Result<Seq<char>, Seq<char>> {
    match t {
        Tree::Text(s) => Ok(s),
        Tree::Object(_) => match t.get("type"@) {
            Some(Tree::Text(s)) => Ok(s),
            _ => Err("activation object missing 'type'"@),
        },
        _ => Err("invalid activation config: "@ + rendered(t)),
    }
}

/// The function of a given name, with its parameters taken from a
/// configuration.
pub open spec fn act_named<S: Scalar>(name: Seq<char>, t: Tree) -> Result<Act<S>, Seq<char>> {
    if name == "Tanh"@ {
        Ok(Act::Tanh)
    } else if name == "Hardtanh"@ {
        Ok(Act::Hardtanh)
    } else if name == "Fasttanh"@ {
        Ok(Act::Fasttanh)
    } else if name == "ReLU"@ {
        Ok(Act::ReLU)
    } else if name == "LeakyReLU"@ {
        Ok(Act::LeakyReLU(scalar_or::<S>(t, "negative_slope"@, S::literal_spec(1, 2))))
    } else if name == "PReLU"@ {
        Ok(Act::PReLU(slopes_of::<S>(t)))
    } else if name == "Sigmoid"@ {
        Ok(Act::Sigmoid)
    } else if name == "SiLU"@ {
        Ok(Act::SiLU)
    } else if name == "Hardswish"@ {
        Ok(Act::Hardswish)
    } else if name == "LeakyHardtanh"@ || name == "LeakyHardTanh"@ {
        Ok(
            Act::LeakyHardtanh {
                min_val: scalar_or::<S>(t, "min_val"@, S::literal_spec((-1) as i64, 0)),
                max_val: scalar_or::<S>(t, "max_val"@, S::literal_spec(1, 0)),
                min_slope: scalar_or::<S>(t, "min_slope"@, S::literal_spec(1, 2)),
                max_slope: scalar_or::<S>(t, "max_slope"@, S::literal_spec(1, 2)),
            },
        )
    } else if name == "Softsign"@ {
        Ok(Act::Softsign)
    } else {
        Err("unknown activation type: "@ + name)
    }
}

/// The function that a configuration asks for: by its name alone, or by an
/// object with its name under `type` and its parameters.
pub open spec fn act_of<S: Scalar>(t: Tree) -> Result<Act<S>, Seq<char>> {
    match act_name(t) {
        Ok(name) => act_named(name, t),
        Err(e) => Err(e),
    }
}

/// A JSON number as a scalar.
pub fn json_scalar<S: Scalar>(j: &Json) -> (r: Option<S>)
    requires
        lawful::<S>(),
    ensures
        r == scalar_of::<S>(j@),
{
    match j.as_real() {
        Some(bits) => Some(S::narrow(S::Wide::from_bits(bits))),
        None => None,
    }
}

fn scalar_field<S: Scalar>(j: &Json, key: &str, fallback: S) -> (r: S)
    requires
        lawful::<S>(),
    ensures
        r == scalar_or(j@, key@, fallback),
{
    match j.get(key) {
        Some(v) => match json_scalar(v) {
            Some(x) => x,
            None => fallback,
        },
        None => fallback,
    }
}

fn read_slopes<S: Scalar>(j: &Json) -> (r: Vec<S>)
    requires
        lawful::<S>(),
    ensures
        r@ == slopes_of::<S>(j@),
{
    if let Some(list) = j.get("negative_slopes") {
        if let Some(items) = list.as_array() {
            let mut out: Vec<S> = Vec::new();
            let n = items.len();
            let mut i: usize = 0;
            while i < n
                invariant
                    lawful::<S>(),
                    n == items@.len(),
                    i <= n,
                    out@.len() == i,
                    slopes_of::<S>(j@).len() == n,
                    forall|k: int|
                        0 <= k < n ==> #[trigger] slopes_of::<S>(j@)[k] == match scalar_of::<S>(
                            items@[k]@,
                        ) {
                            Some(v) => v,
                            None => S::narrow_spec(S::Wide::from_bits_spec(HUNDREDTH_BITS)),
                        },
                    forall|k: int| 0 <= k < i ==> #[trigger] out@[k] == slopes_of::<S>(j@)[k],
                decreases n - i,
            {
                let v = match json_scalar::<S>(&items[i]) {
                    Some(v) => v,
                    None => S::narrow(S::Wide::from_bits(HUNDREDTH_BITS)),
                };
                out.push(v);
                i += 1;
            }
            assert(out@ =~= slopes_of::<S>(j@));
            return out;
        }
    }
    let mut out: Vec<S> = Vec::new();
    out.push(scalar_field(j, "negative_slope", S::literal(1, 2)));
    assert(out@ =~= slopes_of::<S>(j@));
    out
}

impl<S: Scalar> Activation<S> {
    /// Read an activation function from a configuration: a string, or an
    /// object with a `type` and parameters.
    pub fn from_json(j: &Json) -> (r: Result<Self, String>)
        requires
            lawful::<S>(),
        ensures
            match r {
                Ok(a) => act_of::<S>(j@) == Ok::<Act<S>, Seq<char>>(a.model()),
                Err(e) => act_of::<S>(j@) == Err::<Act<S>, Seq<char>>(e@),
            },
    {
        let name: &str = match j {
            Json::Text(s) => s.as_str(),
            Json::Object(_) => match j.get("type") {
                Some(t) => match t.as_str() {
                    Some(s) => s,
                    None => {
                        return Err("activation object missing 'type'".to_owned());
                    },
                },
                None => {
                    return Err("activation object missing 'type'".to_owned());
                },
            },
            _ => {
                return Err(with_json("invalid activation config: ", j));
            },
        };
        if same_text(name, "Tanh") {
            Ok(Activation::Tanh)
        } else if same_text(name, "Hardtanh") {
            Ok(Activation::Hardtanh)
        } else if same_text(name, "Fasttanh") {
            Ok(Activation::Fasttanh)
        } else if same_text(name, "ReLU") {
            Ok(Activation::ReLU)
        } else if same_text(name, "LeakyReLU") {
            Ok(Activation::LeakyReLU(scalar_field(j, "negative_slope", S::literal(1, 2))))
        } else if same_text(name, "PReLU") {
            Ok(Activation::PReLU(read_slopes(j)))
        } else if same_text(name, "Sigmoid") {
            Ok(Activation::Sigmoid)
        } else if same_text(name, "SiLU") {
            Ok(Activation::SiLU)
        } else if same_text(name, "Hardswish") {
            Ok(Activation::Hardswish)
        } else if same_text(name, "LeakyHardtanh") || same_text(name, "LeakyHardTanh") {
            Ok(
                Activation::LeakyHardtanh {
                    min_val: scalar_field(j, "min_val", S::literal(-1, 0)),
                    max_val: scalar_field(j, "max_val", S::literal(1, 0)),
                    min_slope: scalar_field(j, "min_slope", S::literal(1, 2)),
                    max_slope: scalar_field(j, "max_slope", S::literal(1, 2)),
                },
            )
        } else if same_text(name, "Softsign") {
            Ok(Activation::Softsign)
        } else {
            Err(glue("unknown activation type: ", name))
        }
    }
}

} // verus!
