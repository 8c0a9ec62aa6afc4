//! What the activation functions are, and how a document names them.

use crate::json::{NumberTree, Tree};
use crate::laws::documents::{
    lacks, lemma_no_real, names_are_found, no_real, other_names_are_not_found, reals_are_found,
    says, says_real,
};
use crate::num::{Sample, Scalar};
use crate::pure::activations::{act_name, act_of, activated, scalar_or, slopes_of, Act};
use vstd::arithmetic::div_mod::*;
use vstd::prelude::*;
use vstd::string::*;

verus! {

// Values =====================================================================

/// The whole number `n`.
pub open spec fn number<S: Scalar>(n: i64) -> S {
    S::literal_spec(n, 0)
}

/// Rectifiers: what is above zero passes, everything else becomes zero or is
/// multiplied by the slope, that of a list by turns.
pub proof fn rectifiers<S: Scalar>(
    x: S,
    slope: S,
    slopes: Seq<S>,
    turn: int,
    i: int,
    p: int,
)
    requires
        0 <= i < slopes.len(),
        0 <= turn,
    ensures
        S::zero_spec().lt_spec(x) ==> activated(Act::ReLU, x, p) == x,
        S::zero_spec().lt_spec(x) ==> activated(Act::LeakyReLU(slope), x, p) == x,
        S::zero_spec().lt_spec(x) ==> activated(Act::PReLU(slopes), x, p) == x,
        !S::zero_spec().lt_spec(x) ==> activated(Act::ReLU, x, p) == S::zero_spec(),
        !S::zero_spec().lt_spec(x) ==> activated(Act::LeakyReLU(slope), x, p) == slope.mul_spec(x),
        !S::zero_spec().lt_spec(x) ==> activated(
            Act::PReLU(slopes),
            x,
            turn * slopes.len() + i,
        ) == slopes[i].mul_spec(x),
{
    lemma_fundamental_div_mod_converse(turn * slopes.len() + i, slopes.len() as int, turn, i);
}

/// A rectifier with one slope is the rectifier with that slope, and one whose
/// slopes are all the same is too.
pub proof fn equal_slopes_are_one_slope<S: Scalar>(x: S, slopes: Seq<S>, slope: S, p: int)
    requires
        slopes.len() > 0,
        forall|i: int| 0 <= i < slopes.len() ==> #[trigger] slopes[i] == slope,
        p >= 0,
    ensures
        activated(Act::PReLU(slopes), x, p) == activated(Act::LeakyReLU(slope), x, p),
{
    lemma_mod_bound(p, slopes.len() as int);
}

/// The clamps: inside the interval nothing changes, and outside it the end is
/// given, or what is beyond it is multiplied by the slope of that side.
pub proof fn clamps<S: Scalar>(x: S, low: S, high: S, below: S, above: S, p: int)
    ensures
        x.lt_spec(number::<S>((-1) as i64)) ==> activated(Act::Hardtanh, x, p) == number::<S>(
            (-1) as i64,
        ),
        !x.lt_spec(number::<S>((-1) as i64)) && number::<S>(1).lt_spec(x) ==> activated(
            Act::Hardtanh,
            x,
            p,
        ) == number::<S>(1),
        !x.lt_spec(number::<S>((-1) as i64)) && !number::<S>(1).lt_spec(x) ==> activated(
            Act::Hardtanh,
            x,
            p,
        ) == x,
        ({
            let leaky = Act::LeakyHardtanh {
                min_val: low,
                max_val: high,
                min_slope: below,
                max_slope: above,
            };
            &&& x.lt_spec(low) ==> activated(leaky, x, p) == x.sub_spec(low).mul_spec(
                below,
            ).add_spec(low)
            &&& !x.lt_spec(low) && high.lt_spec(x) ==> activated(leaky, x, p) == x.sub_spec(
                high,
            ).mul_spec(above).add_spec(high)
            &&& !x.lt_spec(low) && !high.lt_spec(x) ==> activated(leaky, x, p) == x
        }),
{
}

/// The smooth functions: the hyperbolic tangent, the quotient of one and one more
/// than the exponential of the opposite, that quotient times the argument, and
/// the argument over one more than its absolute value.
pub proof fn smooth_functions<S: Scalar>(x: S, p: int)
    ensures
        activated(Act::Tanh, x, p) == x.tanh_spec(),
        activated(Act::Sigmoid, x, p) == number::<S>(1).div_spec(
            number::<S>(1).add_spec(x.neg_spec().exp_spec()),
        ),
        activated(Act::SiLU, x, p) == x.mul_spec(activated(Act::Sigmoid, x, p)),
        activated(Act::Softsign, x, p) == x.div_spec(number::<S>(1).add_spec(x.abs_spec())),
{
}

/// The ramp: a sixth of the argument times three more than it, where that lies
/// between zero and six; zero and six take its place outside.
pub proof fn ramps<S: Scalar>(x: S, p: int)
    ensures
        ({
            let up = x.add_spec(number::<S>(3));
            let sixth = number::<S>(1).div_spec(number::<S>(6));
            let y = activated(Act::Hardswish, x, p);
            &&& up.lt_spec(S::zero_spec()) ==> y == x.mul_spec(S::zero_spec()).mul_spec(sixth)
            &&& !up.lt_spec(S::zero_spec()) && number::<S>(6).lt_spec(up) ==> y == x.mul_spec(
                number::<S>(6),
            ).mul_spec(sixth)
            &&& !up.lt_spec(S::zero_spec()) && !number::<S>(6).lt_spec(up) ==> y == x.mul_spec(
                up,
            ).mul_spec(sixth)
        }),
{
}

/// The fast tangent is a quotient of the argument times a polynomial of its size
/// and its square, and of a polynomial of the same.
pub proof fn fast_tangents<S: Scalar>(x: S, p: int)
    ensures
        exists|above: S, below: S| #[trigger]
            above.div_spec(below) == activated(Act::Fasttanh, x, p) && fast_top(x, above)
                && fast_bottom(x, below),
{
    let ax = x.abs_spec();
    let x2 = x.mul_spec(x);
    let a = S::literal_spec(24555075, 7);
    let b = S::literal_spec(8932299, 7);
    let c = S::literal_spec(8212267, 7);
    let d = S::literal_spec(24450663, 7);
    let e = S::literal_spec(8146427, 7);
    let above = x.mul_spec(
        a.add_spec(a.mul_spec(ax)).add_spec(b.add_spec(c.mul_spec(ax)).mul_spec(x2)),
    );
    let below = d.add_spec(
        d.add_spec(x2).mul_spec(x.add_spec(e.mul_spec(x).mul_spec(ax)).abs_spec()),
    );
    assert(fast_top(x, above));
    assert(fast_bottom(x, below));
    assert(above.div_spec(below) == activated(Act::Fasttanh, x, p));
}

/// What stands above the line: the argument times 2.4555075 and as much per
/// size, and 0.8932299 and 0.8212267 per size for the square.
pub open spec fn fast_top<S: Scalar>(x: S, y: S) -> bool {
    let first = S::literal_spec(24555075, 7);
    let low = first.add_spec(first.mul_spec(x.abs_spec()));
    let high = S::literal_spec(8932299, 7).add_spec(
        S::literal_spec(8212267, 7).mul_spec(x.abs_spec()),
    );
    y == x.mul_spec(low.add_spec(high.mul_spec(x.mul_spec(x))))
}

/// What stands below the line: 2.4450663, and 2.4450663 more than the square
/// times the size of the argument with 0.8146427 of its square.
pub open spec fn fast_bottom<S: Scalar>(x: S, y: S) -> bool {
    let base = S::literal_spec(24450663, 7);
    let bent = x.add_spec(S::literal_spec(8146427, 7).mul_spec(x).mul_spec(x.abs_spec()));
    y == base.add_spec(base.add_spec(x.mul_spec(x)).mul_spec(bent.abs_spec()))
}

// Names ======================================================================

/// A document names an activation: by a text, or by an object with the text
/// under `type`.
pub open spec fn names(t: Tree, name: Seq<char>) -> bool {
    t == Tree::Text(name) || says(t, "type"@, Tree::Text(name))
}

/// The names of the activations differ.
proof fn lemma_names_differ()
    ensures
        "Tanh"@.len() == 4,
        "ReLU"@.len() == 4,
        "SiLU"@.len() == 4,
        "PReLU"@.len() == 5,
        "Sigmoid"@.len() == 7,
        "Hardtanh"@.len() == 8,
        "Fasttanh"@.len() == 8,
        "Softsign"@.len() == 8,
        "LeakyReLU"@.len() == 9,
        "Hardswish"@.len() == 9,
        "LeakyHardtanh"@.len() == 13,
        "LeakyHardTanh"@.len() == 13,
        "Tanh"@[0] == 'T',
        "ReLU"@[0] == 'R',
        "SiLU"@[0] == 'S',
        "Hardtanh"@[0] == 'H',
        "Fasttanh"@[0] == 'F',
        "Softsign"@[0] == 'S',
        "LeakyReLU"@[0] == 'L',
        "Hardswish"@[0] == 'H',
{
    reveal_strlit("Tanh");
    reveal_strlit("ReLU");
    reveal_strlit("SiLU");
    reveal_strlit("PReLU");
    reveal_strlit("Sigmoid");
    reveal_strlit("Hardtanh");
    reveal_strlit("Fasttanh");
    reveal_strlit("Softsign");
    reveal_strlit("LeakyReLU");
    reveal_strlit("Hardswish");
    reveal_strlit("LeakyHardtanh");
    reveal_strlit("LeakyHardTanh");
}

/// A name is found in a document.
proof fn lemma_named(t: Tree, name: Seq<char>)
    requires
        names(t, name),
    ensures
        act_name(t) == Ok::<Seq<char>, Seq<char>>(name),
{
    if t != Tree::Text(name) {
        names_are_found(t, "type"@, Tree::Text(name));
    }
}

/// Each activation has its name.
pub proof fn activations_have_names<S: Scalar>(t: Tree)
    ensures
        names(t, "Tanh"@) ==> act_of::<S>(t) == Ok::<Act<S>, Seq<char>>(Act::Tanh),
        names(t, "Hardtanh"@) ==> act_of::<S>(t) == Ok::<Act<S>, Seq<char>>(Act::Hardtanh),
        names(t, "Fasttanh"@) ==> act_of::<S>(t) == Ok::<Act<S>, Seq<char>>(Act::Fasttanh),
        names(t, "ReLU"@) ==> act_of::<S>(t) == Ok::<Act<S>, Seq<char>>(Act::ReLU),
        names(t, "LeakyReLU"@) ==> act_of::<S>(t) is Ok && act_of::<S>(t)->Ok_0 is LeakyReLU,
        names(t, "PReLU"@) ==> act_of::<S>(t) is Ok && act_of::<S>(t)->Ok_0 is PReLU,
        names(t, "Sigmoid"@) ==> act_of::<S>(t) == Ok::<Act<S>, Seq<char>>(Act::Sigmoid),
        names(t, "SiLU"@) ==> act_of::<S>(t) == Ok::<Act<S>, Seq<char>>(Act::SiLU),
        names(t, "Hardswish"@) ==> act_of::<S>(t) == Ok::<Act<S>, Seq<char>>(Act::Hardswish),
        names(t, "LeakyHardtanh"@) || names(t, "LeakyHardTanh"@) ==> act_of::<S>(t) is Ok
            && act_of::<S>(t)->Ok_0 is LeakyHardtanh,
        names(t, "Softsign"@) ==> act_of::<S>(t) == Ok::<Act<S>, Seq<char>>(Act::Softsign),
{
    lemma_names_differ();
    if names(t, "Tanh"@) {
        lemma_named(t, "Tanh"@);
    }
    if names(t, "Hardtanh"@) {
        lemma_named(t, "Hardtanh"@);
    }
    if names(t, "Fasttanh"@) {
        lemma_named(t, "Fasttanh"@);
    }
    if names(t, "ReLU"@) {
        lemma_named(t, "ReLU"@);
    }
    if names(t, "LeakyReLU"@) {
        lemma_named(t, "LeakyReLU"@);
    }
    if names(t, "PReLU"@) {
        lemma_named(t, "PReLU"@);
    }
    if names(t, "Sigmoid"@) {
        lemma_named(t, "Sigmoid"@);
    }
    if names(t, "SiLU"@) {
        lemma_named(t, "SiLU"@);
    }
    if names(t, "Hardswish"@) {
        lemma_named(t, "Hardswish"@);
    }
    if names(t, "LeakyHardtanh"@) {
        lemma_named(t, "LeakyHardtanh"@);
    }
    if names(t, "LeakyHardTanh"@) {
        lemma_named(t, "LeakyHardTanh"@);
    }
    if names(t, "Softsign"@) {
        lemma_named(t, "Softsign"@);
    }
}

/// `v` is the number under a name, or the number with these digits and places
/// where there is none.
pub open spec fn given_or<S: Scalar>(
    t: Tree,
    name: Seq<char>,
    v: S,
    digits: i64,
    places: u32,
) -> bool {
    &&& forall|bits: u64|
        #[trigger] says_real(t, name, bits) ==> v == S::narrow_spec(S::Wide::from_bits_spec(bits))
    &&& no_real(t, name) ==> v == S::literal_spec(digits, places)
}

/// A number with a default is read.
proof fn lemma_given_or<S: Scalar>(t: Tree, name: Seq<char>, digits: i64, places: u32)
    ensures
        given_or(
            t,
            name,
            scalar_or::<S>(t, name, S::literal_spec(digits, places)),
            digits,
            places,
        ),
{
    assert forall|bits: u64| #[trigger] says_real(t, name, bits) implies
        scalar_or::<S>(t, name, S::literal_spec(digits, places))
        == S::narrow_spec(S::Wide::from_bits_spec(bits)) by {
        reals_are_found(t, name, bits);
    }
    if no_real(t, name) {
        lemma_no_real(t, name);
    }
}

/// The parameters of an activation are the numbers under their names, or their
/// defaults: slopes of a hundredth, and the interval from minus one to one.
pub proof fn parameters_are_read<S: Scalar>(t: Tree)
    ensures
        names(t, "LeakyReLU"@) ==> (act_of::<S>(t) matches Ok(Act::LeakyReLU(slope)) && given_or(
            t,
            "negative_slope"@,
            slope,
            1,
            2,
        )),
        names(t, "LeakyHardtanh"@) || names(t, "LeakyHardTanh"@) ==> (act_of::<S>(t) matches Ok(
            Act::LeakyHardtanh { min_val, max_val, min_slope, max_slope },
        ) && given_or(t, "min_val"@, min_val, (-1) as i64, 0) && given_or(
            t,
            "max_val"@,
            max_val,
            1,
            0,
        ) && given_or(t, "min_slope"@, min_slope, 1, 2) && given_or(
            t,
            "max_slope"@,
            max_slope,
            1,
            2,
        )),
        names(t, "PReLU"@) && lacks(t, "negative_slopes"@) ==> (act_of::<S>(t) matches Ok(
            Act::PReLU(slopes),
        ) && slopes.len() == 1 && given_or(t, "negative_slope"@, slopes[0], 1, 2)),
{
    activations_have_names::<S>(t);
    lemma_names_differ();
    lemma_given_or::<S>(t, "negative_slope"@, 1, 2);
    lemma_given_or::<S>(t, "min_val"@, (-1) as i64, 0);
    lemma_given_or::<S>(t, "max_val"@, 1, 0);
    lemma_given_or::<S>(t, "min_slope"@, 1, 2);
    lemma_given_or::<S>(t, "max_slope"@, 1, 2);
    if names(t, "LeakyReLU"@) {
        lemma_named(t, "LeakyReLU"@);
    }
    if names(t, "LeakyHardtanh"@) {
        lemma_named(t, "LeakyHardtanh"@);
    }
    if names(t, "LeakyHardTanh"@) {
        lemma_named(t, "LeakyHardTanh"@);
    }
    if names(t, "PReLU"@) && lacks(t, "negative_slopes"@) {
        lemma_named(t, "PReLU"@);
        other_names_are_not_found(t, "negative_slopes"@);
    }
}

/// A list of slopes is read entry by entry.
pub proof fn slopes_are_read_in_order<S: Scalar>(t: Tree, items: Seq<Tree>, i: int, x: NumberTree)
    requires
        names(t, "PReLU"@),
        says(t, "negative_slopes"@, Tree::Array(items)),
        0 <= i < items.len(),
        items[i] == Tree::Number(x),
        x.real is Some,
    ensures
        act_of::<S>(t) matches Ok(Act::PReLU(slopes)) && slopes.len() == items.len() && slopes[i]
            == S::narrow_spec(S::Wide::from_bits_spec(x.real->0)),
{
    activations_have_names::<S>(t);
    lemma_names_differ();
    lemma_named(t, "PReLU"@);
    names_are_found(t, "negative_slopes"@, Tree::Array(items));
    assert(slopes_of::<S>(t).len() == items.len());
}

/// No other names are accepted.
pub proof fn other_names_are_refused<S: Scalar>(t: Tree, name: Seq<char>)
    requires
        names(t, name),
        act_of::<S>(t) is Ok,
    ensures
        name == "Tanh"@ || name == "Hardtanh"@ || name == "Fasttanh"@ || name == "ReLU"@ || name
            == "LeakyReLU"@ || name == "PReLU"@ || name == "Sigmoid"@ || name == "SiLU"@ || name
            == "Hardswish"@ || name == "LeakyHardtanh"@ || name == "LeakyHardTanh"@ || name
            == "Softsign"@,
{
    lemma_named(t, name);
}

} // verus!
