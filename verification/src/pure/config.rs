//! Reading the configuration of a network.

use crate::json::{trees, Json, Tree};
use crate::num::{lawful, Scalar};
use crate::pure::activations::{act_of, Act, Activation};
use crate::render::{rendered, with_json};
use vstd::prelude::*;
use vstd::string::*;

verus! {

// Numbers and lists ==========================================================

/// A non-negative integer.
pub open spec fn whole_of(v: Tree, what: Seq<char>) -> Result<usize, Seq<char>> {
    match v.as_u64() {
        Some(n) => Ok(n as usize),
        None => Err("expected non-negative integer for "@ + what + ", got "@ + rendered(v)),
    }
}

/// Read a non-negative integer.
pub fn as_usize(v: &Json, what: &str) -> (r: Result<usize, String>)
    ensures
        match r {
            Ok(n) => whole_of(v@, what@) == Ok::<usize, Seq<char>>(n),
            Err(e) => whole_of(v@, what@) == Err::<usize, Seq<char>>(e@),
        },
{
    match v.as_u64() {
        Some(n) => Ok(n as usize),
        None => {
            let mut before = "expected non-negative integer for ".to_owned();
            before.append(what);
            before.append(", got ");
            Err(with_json(before.as_str(), v))
        },
    }
}

/// The elements of a list, each read by `f`, or the complaint about the first
/// that cannot be read.
pub open spec fn collected<T>(
    items: Seq<Tree>,
    f: spec_fn(Tree, int) -> Result<T, Seq<char>>,
) -> Result<Seq<T>, Seq<char>>
    decreases items.len(),
{
    if items.len() == 0 {
        Ok(Seq::empty())
    } else {
        match collected(items.drop_last(), f) {
            Err(e) => Err(e),
            Ok(before) => match f(items.last(), items.len() - 1) {
                Err(e) => Err(e),
                Ok(x) => Ok(before.push(x)),
            },
        }
    }
}

/// What follows an element that cannot be read does not matter.
pub proof fn lemma_collected_stops<T>(
    items: Seq<Tree>,
    f: spec_fn(Tree, int) -> Result<T, Seq<char>>,
    k: int,
)
    requires
        0 <= k <= items.len(),
        collected(items.take(k), f) is Err,
    ensures
        collected(items, f) == collected(items.take(k), f),
    decreases items.len() - k,
{
    if k < items.len() {
        assert(items.take(k + 1).drop_last() =~= items.take(k));
        lemma_collected_stops(items, f, k + 1);
    } else {
        assert(items.take(k) =~= items);
    }
}

/// One more element of a list.
pub proof fn lemma_collected_step<T>(
    items: Seq<Tree>,
    f: spec_fn(Tree, int) -> Result<T, Seq<char>>,
    k: int,
)
    requires
        0 <= k < items.len(),
        collected(items.take(k), f) is Ok,
    ensures
        match f(items[k], k) {
            Ok(x) => collected(items.take(k + 1), f) == Ok::<Seq<T>, Seq<char>>(
                collected(items.take(k), f)->Ok_0.push(x),
            ),
            Err(e) => collected(items, f) == Err::<Seq<T>, Seq<char>>(e),
        },
        k + 1 == items.len() ==> items.take(k + 1) == items,
{
    assert(items.take(k + 1).drop_last() =~= items.take(k));
    assert(items.take(k + 1).last() == items[k]);
    if f(items[k], k) is Err {
        lemma_collected_stops(items, f, k + 1);
    }
    if k + 1 == items.len() {
        assert(items.take(k + 1) =~= items);
    }
}

/// How an element of a list of non-negative integers is read.
pub open spec fn whole_reader(what: Seq<char>) -> spec_fn(Tree, int) -> Result<usize, Seq<char>> {
    |v: Tree, i: int| whole_of(v, what)
}

/// A list of non-negative integers.
pub open spec fn wholes_of(items: Seq<Tree>, what: Seq<char>) -> Result<Seq<usize>, Seq<char>> {
    collected(items, whole_reader(what))
}

/// Read a list of non-negative integers.
pub fn read_wholes(items: &Vec<Json>, what: &str) -> (r: Result<Vec<usize>, String>)
    ensures
        match r {
            Ok(v) => wholes_of(trees(items@), what@) == Ok::<Seq<usize>, Seq<char>>(v@),
            Err(e) => wholes_of(trees(items@), what@) == Err::<Seq<usize>, Seq<char>>(e@),
        },
{
    let ghost all = trees(items@);
    let ghost f = whole_reader(what@);
    let mut out: Vec<usize> = Vec::new();
    let mut i: usize = 0;
    assert(all.take(0) =~= Seq::<Tree>::empty());
    while i < items.len()
        invariant
            i <= items@.len(),
            all == trees(items@),
            f == whole_reader(what@),
            collected(all.take(i as int), f) == Ok::<Seq<usize>, Seq<char>>(out@),
        decreases items@.len() - i,
    {
        proof {
            lemma_collected_step(all, f, i as int);
        }
        match as_usize(&items[i], what) {
            Ok(x) => out.push(x),
            Err(e) => {
                return Err(e);
            },
        }
        i += 1;
    }
    assert(all.take(i as int) =~= all);
    Ok(out)
}

/// How an element of a list of activation functions is read.
pub open spec fn act_reader<S: Scalar>() -> spec_fn(Tree, int) -> Result<Act<S>, Seq<char>> {
    |v: Tree, i: int| act_of::<S>(v)
}

/// The functions that a list of activations stands for.
pub open spec fn acts<S: Scalar>(list: Seq<Activation<S>>) -> Seq<Act<S>> {
    Seq::new(list.len(), |i: int| list[i].model())
}

/// Read a list of activation functions.
pub fn read_acts<S: Scalar>(items: &Vec<Json>) -> (r: Result<Vec<Activation<S>>, String>)
    requires
        lawful::<S>(),
    ensures
        match r {
            Ok(v) => collected(trees(items@), act_reader::<S>())
                == Ok::<Seq<Act<S>>, Seq<char>>(acts(v@)),
            Err(e) => collected(trees(items@), act_reader::<S>())
                == Err::<Seq<Act<S>>, Seq<char>>(e@),
        },
{
    let ghost all = trees(items@);
    let ghost f = act_reader::<S>();
    let mut out: Vec<Activation<S>> = Vec::new();
    let mut i: usize = 0;
    assert(all.take(0) =~= Seq::<Tree>::empty());
    assert(acts(out@) =~= Seq::<Act<S>>::empty());
    while i < items.len()
        invariant
            lawful::<S>(),
            i <= items@.len(),
            all == trees(items@),
            f == act_reader::<S>(),
            collected(all.take(i as int), f) == Ok::<Seq<Act<S>>, Seq<char>>(acts(out@)),
        decreases items@.len() - i,
    {
        let ghost was = out@;
        proof {
            lemma_collected_step(all, f, i as int);
        }
        match Activation::from_json(&items[i]) {
            Ok(x) => out.push(x),
            Err(e) => {
                return Err(e);
            },
        }
        assert(acts(out@) =~= acts(was).push(out@.last().model()));
        i += 1;
    }
    assert(all.take(i as int) =~= all);
    Ok(out)
}

/// `n` times the same activation function.
pub fn repeat_act<S: Scalar>(a: &Activation<S>, n: usize) -> (r: Vec<Activation<S>>)
    ensures
        acts(r@) == Seq::new(n as nat, |i: int| a.model()),
{
    let mut out: Vec<Activation<S>> = Vec::new();
    let mut i: usize = 0;
    while i < n
        invariant
            i <= n,
            out@.len() == i,
            forall|j: int| 0 <= j < i ==> (#[trigger] out@[j]).model() == a.model(),
        decreases n - i,
    {
        out.push(a.duplicate());
        i += 1;
    }
    assert(acts(out@) =~= Seq::new(n as nat, |i: int| a.model()));
    out
}

/// `n` times the same value.
pub fn repeat<T: Copy>(x: T, n: usize) -> (r: Vec<T>)
    ensures
        r@ == Seq::new(n as nat, |i: int| x),
{
    let mut out: Vec<T> = Vec::new();
    let mut i: usize = 0;
    while i < n
        invariant
            i <= n,
            out@ == Seq::new(i as nat, |j: int| x),
        decreases n - i,
    {
        out.push(x);
        i += 1;
        assert(out@ =~= Seq::new(i as nat, |j: int| x));
    }
    out
}

} // verus!
