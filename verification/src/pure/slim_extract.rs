//! Cutting the weights of a reduced network out of those of the full one.

use crate::num::Scalar;
use crate::pure::conv1d::dilated_count;
use crate::pure::nn::affine_count;
use vstd::arithmetic::mul::*;
use vstd::prelude::*;
use vstd::string::*;

verus! {

// Blocks =====================================================================

/// The lesser of two numbers.
pub open spec fn lesser(a: nat, b: nat) -> nat {
    if a <= b {
        a
    } else {
        b
    }
}

/// The first `keep` numbers of each of `rows` rows of `row` numbers.
pub open spec fn cut<S>(data: Seq<S>, pos: int, row: nat, keep: nat, rows: nat) -> Seq<S>
    decreases rows,
{
    if rows == 0 {
        Seq::empty()
    } else {
        let at = pos + (rows - 1) * row;
        cut(data, pos, row, keep, (rows - 1) as nat) + data.subrange(at, at + keep)
    }
}

/// How many weights a convolution without groups reads.
pub open spec fn block_count(full_in: nat, full_out: nat, taps: nat, bias: bool) -> nat {
    full_out * (full_in * taps) + if bias {
        full_out
    } else {
        0
    }
}

/// The weights of the first inputs and outputs of a convolution.
pub open spec fn block<S>(
    data: Seq<S>,
    pos: int,
    full_in: nat,
    full_out: nat,
    slim_in: nat,
    slim_out: nat,
    taps: nat,
    bias: bool,
) -> Seq<S> {
    let rows = lesser(slim_out, full_out);
    let tail = pos + full_out * (full_in * taps);
    cut(data, pos, full_in * taps, lesser(slim_in, full_in) * taps, rows) + if bias {
        data.subrange(tail, tail + rows)
    } else {
        Seq::empty()
    }
}

/// A reader of the weights of the full network.
pub struct Src<'a, S> {
    /// All weights.
    pub data: &'a [S],
    /// How many have been read.
    pub pos: usize,
}

/// The complaint about too few weights.
pub open spec fn short_text() -> Seq<char> {
    "SlimmableWavenet: weight underflow during extraction"@
}

impl<'a, S: Scalar> Src<'a, S> {
    /// The reader has not run past the end.
    pub open spec fn wf(&self) -> bool {
        self.pos <= self.data@.len()
    }

    /// The next weight.
    pub fn take(&mut self) -> (r: Result<S, String>)
        requires
            old(self).wf(),
        ensures
            final(self).wf(),
            final(self).data == old(self).data,
            old(self).pos < old(self).data@.len() ==> {
                &&& r == Ok::<S, String>(old(self).data@[old(self).pos as int])
                &&& final(self).pos == old(self).pos + 1
            },
            old(self).pos == old(self).data@.len() ==> (r matches Err(e) && e@ == short_text()),
    {
        if self.pos < self.data.len() {
            let v = self.data[self.pos];
            self.pos = self.pos + 1;
            Ok(v)
        } else {
            Err("SlimmableWavenet: weight underflow during extraction".to_owned())
        }
    }
}

/// What reading `count` weights and keeping `kept` of them does.
pub open spec fn reads<S>(
    before: Src<S>,
    after: Src<S>,
    had: Seq<S>,
    has: Seq<S>,
    r: Result<(), String>,
    count: nat,
    kept: Seq<S>,
) -> bool {
    &&& after.data == before.data
    &&& after.pos <= after.data@.len()
    &&& r is Ok <==> before.pos + count <= before.data@.len()
    &&& r is Ok ==> after.pos == before.pos + count && has == had + kept
    &&& r matches Err(e) ==> e@ == short_text()
}

/// Read a row of weights of `full` inputs with `taps` taps each, and keep those
/// of the first `slim` inputs.
fn read_row<S: Scalar>(
    src: &mut Src<S>,
    full: usize,
    slim: usize,
    taps: usize,
    dst: &mut Vec<S>,
) -> (r: Result<(), String>)
    requires
        old(src).wf(),
    ensures
        final(src).wf(),
        reads(
            *old(src),
            *final(src),
            old(dst)@,
            final(dst)@,
            r,
            full as nat * taps as nat,
            old(src).data@.subrange(
                old(src).pos as int,
                old(src).pos + lesser(slim as nat, full as nat) * taps,
            ),
        ),
{
    let ghost data = src.data@;
    let ghost pos = src.pos as int;
    let ghost had = dst@;
    let ghost t = taps as int;
    let mut j: usize = 0;
    assert(data.subrange(pos, pos + 0) =~= Seq::<S>::empty());
    assert(had + data.subrange(pos, pos + 0) =~= had);
    assert(lesser(slim as nat, 0) * taps as nat == 0) by (nonlinear_arith);
    while j < full
        invariant
            j <= full,
            src.wf(),
            src.data == old(src).data,
            data == src.data@,
            pos == old(src).pos,
            t == taps,
            had == old(dst)@,
            src.pos == pos + j * t,
            dst@ == had + data.subrange(pos, pos + lesser(slim as nat, j as nat) * taps),
        decreases full - j,
    {
        let ghost base = pos + j * t;
        let ghost kept = lesser(slim as nat, j as nat) * taps;
        let ghost start = dst@;
        proof {
            lemma_mul_inequality(j + 1, full as int, t);
            lemma_mul_is_distributive_add_other_way(t, j as int, 1);
            lemma_mul_nonnegative(j as int, t);
            lemma_mul_nonnegative(lesser(slim as nat, j as nat) as int, t);
        }
        let mut k: usize = 0;
        assert(start + data.subrange(base, base) =~= start);
        while k < taps
            invariant
                k <= taps,
                j < full,
                src.wf(),
                src.data == old(src).data,
                data == src.data@,
                t == taps,
                base == pos + j * t,
                pos == old(src).pos,
                base >= 0,
                src.pos == base + k,
                base + t <= pos + full * t,
                dst@ == start + if j < slim {
                    data.subrange(base, base + k)
                } else {
                    Seq::empty()
                },
            decreases taps - k,
        {
            let v = match src.take() {
                Ok(v) => v,
                Err(e) => {
                    return Err(e);
                },
            };
            if j < slim {
                dst.push(v);
                assert(data.subrange(base, base + k + 1) =~= data.subrange(base, base + k).push(
                    v,
                ));
                assert(dst@ =~= start + data.subrange(base, base + k + 1));
            }
            k += 1;
        }
        proof {
            if j < slim {
                assert(kept == j * t);
                assert(lesser(slim as nat, (j + 1) as nat) * taps == (j + 1) * t);
                assert(data.subrange(pos, base) + data.subrange(base, base + t)
                    =~= data.subrange(pos, base + t));
                assert(dst@ =~= had + data.subrange(pos, base + t));
            } else {
                assert(lesser(slim as nat, (j + 1) as nat) == lesser(slim as nat, j as nat));
                assert(dst@ =~= start);
            }
        }
        j += 1;
    }
    Ok(())
}

/// Read a convolution with `taps` taps, and keep the weights of its first
/// inputs and outputs.
fn extract_block<S: Scalar>(
    src: &mut Src<S>,
    full_in: usize,
    full_out: usize,
    slim_in: usize,
    slim_out: usize,
    taps: usize,
    bias: bool,
    dst: &mut Vec<S>,
) -> (r: Result<(), String>)
    requires
        old(src).wf(),
    ensures
        final(src).wf(),
        reads(
            *old(src),
            *final(src),
            old(dst)@,
            final(dst)@,
            r,
            block_count(full_in as nat, full_out as nat, taps as nat, bias),
            block(
                old(src).data@,
                old(src).pos as int,
                full_in as nat,
                full_out as nat,
                slim_in as nat,
                slim_out as nat,
                taps as nat,
                bias,
            ),
        ),
{
    let ghost data = src.data@;
    let ghost pos = src.pos as int;
    let ghost had = dst@;
    let ghost row = full_in as nat * taps as nat;
    let ghost keep = lesser(slim_in as nat, full_in as nat) * taps as nat;
    let mut i: usize = 0;
    assert(had + cut(data, pos, row, keep, 0) =~= had);
    proof {
        lemma_mul_basics(row as int);
        assert(lesser(0, full_in as nat) * taps as nat == 0) by (nonlinear_arith);
    }
    while i < full_out
        invariant
            i <= full_out,
            src.wf(),
            src.data == old(src).data,
            data == src.data@,
            pos == old(src).pos,
            had == old(dst)@,
            row == full_in as nat * taps as nat,
            keep == lesser(slim_in as nat, full_in as nat) * taps as nat,
            lesser(0, full_in as nat) * taps as nat == 0,
            src.pos == pos + i * row,
            dst@ == had + cut(data, pos, row, keep, lesser(slim_out as nat, i as nat)),
        decreases full_out - i,
    {
        let ghost start = dst@;
        let ghost at = src.pos as int;
        proof {
            lemma_mul_inequality(i + 1, full_out as int, row as int);
            lemma_mul_is_distributive_add_other_way(row as int, i as int, 1);
        }
        let wanted = if i < slim_out {
            slim_in
        } else {
            0
        };
        if let Err(e) = read_row(src, full_in, wanted, taps, dst) {
            return Err(e);
        }
        proof {
            if i < slim_out {
                assert(dst@ == start + data.subrange(at, at + keep));
                assert(cut(data, pos, row, keep, (i + 1) as nat) == cut(
                    data,
                    pos,
                    row,
                    keep,
                    i as nat,
                ) + data.subrange(at, at + keep));
                assert(dst@ =~= had + cut(data, pos, row, keep, (i + 1) as nat));
            } else {
                assert(data.subrange(at, at + 0) =~= Seq::<S>::empty());
                assert(dst@ =~= start);
            }
        }
        i += 1;
    }
    let ghost mid = dst@;
    if bias {
        if let Err(e) = read_row(src, full_out, slim_out, 1, dst) {
            return Err(e);
        }
    } else {
        assert(mid + Seq::<S>::empty() =~= mid);
    }
    proof {
        let rows = lesser(slim_out as nat, full_out as nat);
        let tail = pos + full_out * row;
        if bias {
            assert(dst@ =~= had + (cut(data, pos, row, keep, rows) + data.subrange(
                tail,
                tail + rows,
            )));
        } else {
            assert(dst@ =~= had + (cut(data, pos, row, keep, rows) + Seq::<S>::empty()));
        }
    }
    Ok(())
}

/// Read a pointwise convolution, and keep the weights of its first inputs and
/// outputs.
pub(crate) fn extract_conv1x1<S: Scalar>(
    src: &mut Src<S>,
    full_in: usize,
    full_out: usize,
    slim_in: usize,
    slim_out: usize,
    bias: bool,
    dst: &mut Vec<S>,
) -> (r: Result<(), String>)
    requires
        old(src).wf(),
    ensures
        final(src).wf(),
        reads(
            *old(src),
            *final(src),
            old(dst)@,
            final(dst)@,
            r,
            affine_count(full_in as nat, full_out as nat, bias, 1),
            block(
                old(src).data@,
                old(src).pos as int,
                full_in as nat,
                full_out as nat,
                slim_in as nat,
                slim_out as nat,
                1,
                bias,
            ),
        ),
{
    extract_block(src, full_in, full_out, slim_in, slim_out, 1, bias, dst)
}

/// Read a convolution, which has a bias, and keep the weights of its first
/// inputs and outputs.
pub(crate) fn extract_conv1d<S: Scalar>(
    src: &mut Src<S>,
    full_in: usize,
    full_out: usize,
    slim_in: usize,
    slim_out: usize,
    kernel_size: usize,
    dst: &mut Vec<S>,
) -> (r: Result<(), String>)
    requires
        old(src).wf(),
    ensures
        final(src).wf(),
        reads(
            *old(src),
            *final(src),
            old(dst)@,
            final(dst)@,
            r,
            dilated_count(
                full_in as nat,
                full_out as nat,
                kernel_size as nat,
                true,
                1,
            ),
            block(
                old(src).data@,
                old(src).pos as int,
                full_in as nat,
                full_out as nat,
                slim_in as nat,
                slim_out as nat,
                kernel_size as nat,
                true,
            ),
        ),
{
    proof {
        lemma_mul_is_associative(full_out as int, full_in as int, kernel_size as int);
    }
    extract_block(src, full_in, full_out, slim_in, slim_out, kernel_size, true, dst)
}

} // verus!
