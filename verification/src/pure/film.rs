//! Feature-wise linear modulation: channels scaled, and optionally shifted, by
//! amounts that a pointwise convolution of the condition gives.

use crate::num::{lawful, Scalar};
use crate::pure::mat::Mat;
use crate::pure::nn::{
    affine, affine_error, affine_from, overlay, oversize_message, oversize_text, product_fits,
    underflow_text, Affine, Conv1x1, Weights,
};
use vstd::prelude::*;

verus! {

/// A modulation as a mathematical map.
pub struct Modulation<S> {
    /// Condition to scales, followed by shifts where there are any.
    pub conv: Affine<S>,
    /// How many channels are modulated.
    pub dim: nat,
    /// Whether there are shifts.
    pub shift: bool,
}

/// How many amounts a modulation of `dim` channels takes.
pub open spec fn amounts(dim: nat, shift: bool) -> nat {
    if shift {
        2 * dim
    } else {
        dim
    }
}

/// The top channels of a frame, modulated.
pub open spec fn modulated<S: Scalar>(m: Modulation<S>, x: Seq<S>, c: Seq<S>) -> Seq<S> {
    let ss = affine(m.conv, c);
    Seq::new(
        m.dim,
        |r: int|
            if m.shift {
                x[r].mul_spec(ss[r]).add_spec(ss[m.dim + r])
            } else {
                x[r].mul_spec(ss[r])
            },
    )
}

/// A frame whose top channels are modulated and whose other channels are left
/// alone.
pub open spec fn modulated_top<S: Scalar>(m: Modulation<S>, t: Seq<S>, c: Seq<S>) -> Seq<S> {
    Seq::new(
        t.len(),
        |r: int|
            if r < m.dim {
                modulated(m, t, c)[r]
            } else {
                t[r]
            },
    )
}

/// A frame after an optional modulation of its top channels.
pub open spec fn maybe_modulated<S: Scalar>(
    m: Option<Modulation<S>>,
    t: Seq<S>,
    c: Seq<S>,
) -> Seq<S> {
    match m {
        Some(m) => modulated_top(m, t, c),
        None => t,
    }
}

/// Why there is no modulation of these channels, where there is none.
pub open spec fn film_error(
    condition: nat,
    dim: nat,
    shift: bool,
    groups: nat,
) -> Option<Seq<char>> {
    if amounts(dim, shift) > usize::MAX {
        Some(oversize_text())
    } else {
        affine_error(condition, amounts(dim, shift), groups)
    }
}

/// The modulation that the weights from `pos` on describe.
pub open spec fn modulation_from<S: Scalar>(
    data: Seq<S>,
    pos: int,
    condition: nat,
    dim: nat,
    shift: bool,
    groups: nat,
) -> Modulation<S> {
    Modulation {
        conv: affine_from(data, pos, condition, amounts(dim, shift), true, groups),
        dim,
        shift,
    }
}

/// A modulation with its buffers.
pub struct Film<S> {
    /// Condition to scales, followed by shifts where there are any.
    pub conv: Conv1x1<S>,
    /// How many channels are modulated.
    pub dim: usize,
    /// Whether there are shifts.
    pub shift: bool,
    /// The frames computed last.
    pub out: Mat<S>,
}

impl<S: Scalar> Film<S> {
    /// The shapes agree.
    pub open spec fn wf(&self) -> bool {
        &&& self.conv.wf()
        &&& self.conv.biased
        &&& self.conv.out_ch == amounts(self.dim as nat, self.shift)
        &&& self.out.wf()
        &&& self.out.rows == self.dim
    }

    /// The buffers have room for this many frames.
    pub open spec fn sized(&self, max_frames: nat) -> bool {
        &&& self.conv.sized(max_frames)
        &&& self.out.shaped(self.dim as nat, max_frames)
    }

    /// The map that this modulation computes.
    pub open spec fn model(&self) -> Modulation<S> {
        Modulation { conv: self.conv.model(), dim: self.dim as nat, shift: self.shift }
    }

    /// How many weights this modulation reads.
    pub open spec fn count(&self) -> nat {
        self.conv.count()
    }

    /// A modulation without weights and without room for frames.
    pub fn new(condition_dim: usize, dim: usize, shift: bool, groups: usize) -> (r: Result<
        Self,
        String,
    >)
        requires
            lawful::<S>(),
        ensures
            ({
                let error = film_error(
                    condition_dim as nat,
                    dim as nat,
                    shift,
                    groups as nat,
                );
                match r {
                    Ok(c) => {
                        &&& error is None
                        &&& c.wf()
                        &&& c.conv.in_ch == condition_dim
                        &&& c.conv.groups == groups
                        &&& c.dim == dim
                        &&& c.shift == shift
                    },
                    Err(e) => error == Some(e@),
                }
            }),
    {
        if shift && !product_fits(2, dim) {
            return Err(oversize_message());
        }
        let outputs = if shift {
            2 * dim
        } else {
            dim
        };
        match Conv1x1::new(condition_dim, outputs, true, groups) {
            Ok(conv) => Ok(Film { conv, dim, shift, out: Mat::new(dim, 0) }),
            Err(e) => Err(e),
        }
    }

    /// Make room for blocks of up to `max_frames` frames.
    pub fn set_max_buffer_size(&mut self, max_frames: usize)
        requires
            lawful::<S>(),
            old(self).wf(),
            max_frames * old(self).conv.out_ch <= usize::MAX,
            max_frames * old(self).dim <= usize::MAX,
        ensures
            final(self).wf(),
            final(self).model() == old(self).model(),
            final(self).sized(max_frames as nat),
    {
        self.conv.set_max_buffer_size(max_frames);
        self.out.reset(self.dim, max_frames);
    }

    /// Take the weights from a list.
    pub fn set_weights(&mut self, w: &mut Weights<S>) -> (r: Result<(), String>)
        requires
            lawful::<S>(),
            old(self).wf(),
            old(w).wf(),
        ensures
            final(self).wf(),
            final(self).dim == old(self).dim,
            final(self).shift == old(self).shift,
            final(self).out == old(self).out,
            final(self).conv.in_ch == old(self).conv.in_ch,
            final(self).conv.out_ch == old(self).conv.out_ch,
            final(self).conv.groups == old(self).conv.groups,
            final(self).conv.out == old(self).conv.out,
            final(w).wf(),
            final(w).data == old(w).data,
            r is Ok <==> old(w).pos + old(self).count() <= old(w).data@.len(),
            r is Ok ==> {
                &&& final(w).pos == old(w).pos + old(self).count()
                &&& final(self).model() == modulation_from(
                    old(w).data@,
                    old(w).pos as int,
                    old(self).conv.in_ch as nat,
                    old(self).dim as nat,
                    old(self).shift,
                    old(self).conv.groups as nat,
                )
            },
            r matches Err(e) ==> {
                &&& e@ == underflow_text(old(w).data@.len())
                &&& final(w).pos == old(w).data@.len()
            },
    {
        self.conv.set_weights(w)
    }

    /// Modulate the top channels of the first `num_frames` frames into the
    /// output buffer.
    pub fn process(&mut self, input: &Mat<S>, condition: &Mat<S>, num_frames: usize)
        requires
            lawful::<S>(),
            old(self).wf(),
            old(self).conv.out.cols == old(self).out.cols,
            input.wf(),
            condition.wf(),
            old(self).dim <= input.rows,
            old(self).conv.in_ch <= condition.rows,
            num_frames <= input.cols,
            num_frames <= condition.cols,
            num_frames <= old(self).out.cols,
        ensures
            final(self).wf(),
            final(self).model() == old(self).model(),
            final(self).sized(old(self).out.cols as nat),
            final(self).out@ == overlay(
                old(self).out@,
                Seq::new(
                    num_frames as nat,
                    |f: int| modulated(old(self).model(), input@[f], condition@[f]),
                ),
            ),
    {
        let ghost m = self.model();
        let ghost first = self.out@;
        self.conv.process(condition, num_frames);
        let mut f: usize = 0;
        assert(self.out@ =~= overlay(
            first,
            Seq::new(0, |f: int| modulated(m, input@[f], condition@[f])),
        ));
        while f < num_frames
            invariant
                lawful::<S>(),
                self.wf(),
                m == self.model(),
                m == old(self).model(),
                first == old(self).out@,
                self.sized(old(self).out.cols as nat),
                input.wf(),
                self.dim <= input.rows,
                f <= num_frames <= input.cols,
                num_frames <= self.out.cols,
                forall|q: int|
                    0 <= q < num_frames ==> #[trigger] self.conv.out@[q] == affine(
                        m.conv,
                        condition@[q],
                    ),
                self.out@ == overlay(
                    first,
                    Seq::new(f as nat, |f: int| modulated(m, input@[f], condition@[f])),
                ),
            decreases num_frames - f,
        {
            let ghost before = self.out@;
            let x = input.col(f);
            let ghost want = modulated(m, input@[f as int], condition@[f as int]);
            let mut r: usize = 0;
            while r < self.dim
                invariant
                    lawful::<S>(),
                    self.wf(),
                    m == self.model(),
                    self.sized(old(self).out.cols as nat),
                    x@ == input@[f as int],
                    self.dim <= x@.len(),
                    f < self.out.cols,
                    r <= self.dim,
                    self.conv.out@[f as int] == affine(m.conv, condition@[f as int]),
                    want == modulated(m, input@[f as int], condition@[f as int]),
                    before.len() == self.out.cols,
                    forall|q: int|
                        0 <= q < num_frames ==> #[trigger] self.conv.out@[q] == affine(
                            m.conv,
                            condition@[q],
                        ),
                    forall|c: int|
                        0 <= c < before.len() && c != f ==> #[trigger] self.out@[c] == before[c],
                    self.out@[f as int].len() == self.dim,
                    forall|q: int| 0 <= q < r ==> #[trigger] self.out@[f as int][q] == want[q],
                decreases self.dim - r,
            {
                let scaled = x[r].mul(self.conv.out.get(r, f));
                let v = if self.shift {
                    scaled.add(self.conv.out.get(self.dim + r, f))
                } else {
                    scaled
                };
                self.out.set(r, f, v);
                r += 1;
            }
            f += 1;
            proof {
                assert(self.out@[f - 1] =~= want);
                assert(self.out@ =~= overlay(
                    first,
                    Seq::new(f as nat, |f: int| modulated(m, input@[f], condition@[f])),
                ));
            }
        }
    }

    /// Modulate the top channels of the first `num_frames` frames in place.
    pub fn process_in_place(&mut self, target: &mut Mat<S>, condition: &Mat<S>, num_frames: usize)
        requires
            lawful::<S>(),
            old(self).wf(),
            condition.wf(),
            old(target).wf(),
            old(self).dim <= old(target).rows,
            old(self).conv.in_ch <= condition.rows,
            num_frames <= old(target).cols,
            num_frames <= condition.cols,
            num_frames <= old(self).conv.out.cols,
        ensures
            final(self).wf(),
            final(self).model() == old(self).model(),
            final(self).out == old(self).out,
            final(self).conv.out.cols == old(self).conv.out.cols,
            final(target).shaped(old(target).rows as nat, old(target).cols as nat),
            final(target)@ == overlay(
                old(target)@,
                Seq::new(
                    num_frames as nat,
                    |f: int| modulated_top(old(self).model(), old(target)@[f], condition@[f]),
                ),
            ),
    {
        let ghost m = self.model();
        let ghost first = target@;
        self.conv.process(condition, num_frames);
        let mut f: usize = 0;
        assert(target@ =~= overlay(
            first,
            Seq::new(0, |f: int| modulated_top(m, first[f], condition@[f])),
        ));
        while f < num_frames
            invariant
                lawful::<S>(),
                self.wf(),
                m == self.model(),
                m == old(self).model(),
                first == old(target)@,
                self.out == old(self).out,
                self.conv.out.cols == old(self).conv.out.cols,
                target.shaped(old(target).rows as nat, old(target).cols as nat),
                self.dim <= target.rows,
                f <= num_frames <= target.cols,
                num_frames <= self.conv.out.cols,
                forall|q: int|
                    0 <= q < num_frames ==> #[trigger] self.conv.out@[q] == affine(
                        m.conv,
                        condition@[q],
                    ),
                target@ == overlay(
                    first,
                    Seq::new(f as nat, |f: int| modulated_top(m, first[f], condition@[f])),
                ),
            decreases num_frames - f,
        {
            let ghost before = target@;
            let ghost t = first[f as int];
            let ghost want = modulated_top(m, t, condition@[f as int]);
            assert(before[f as int] == t);
            let mut r: usize = 0;
            while r < self.dim
                invariant
                    lawful::<S>(),
                    self.wf(),
                    m == self.model(),
                    self.conv.out.cols == old(self).conv.out.cols,
                    target.shaped(old(target).rows as nat, old(target).cols as nat),
                    self.dim <= target.rows,
                    f < target.cols,
                    f < self.conv.out.cols,
                    r <= self.dim,
                    self.conv.out@[f as int] == affine(m.conv, condition@[f as int]),
                    want == modulated_top(m, t, condition@[f as int]),
                    t.len() == target.rows,
                    before.len() == target.cols,
                    forall|c: int|
                        0 <= c < before.len() && c != f ==> #[trigger] target@[c] == before[c],
                    target@[f as int].len() == target.rows,
                    forall|q: int| 0 <= q < r ==> #[trigger] target@[f as int][q] == want[q],
                    forall|q: int|
                        r <= q < target.rows ==> #[trigger] target@[f as int][q] == t[q],
                decreases self.dim - r,
            {
                let scaled = target.get(r, f).mul(self.conv.out.get(r, f));
                let v = if self.shift {
                    scaled.add(self.conv.out.get(self.dim + r, f))
                } else {
                    scaled
                };
                target.set(r, f, v);
                r += 1;
            }
            f += 1;
            proof {
                assert(target@[f - 1] =~= want);
                assert(target@ =~= overlay(
                    first,
                    Seq::new(f as nat, |f: int| modulated_top(m, first[f], condition@[f])),
                ));
            }
        }
    }
}

// Optional modulations =======================================================

/// The shapes of an optional modulation of `dim` channels agree.
pub open spec fn film_fits<S: Scalar>(film: Option<Film<S>>, dim: nat, condition: nat) -> bool {
    film matches Some(f) ==> f.wf() && f.dim == dim && f.conv.in_ch == condition
}

/// The buffers of an optional modulation have room for this many frames.
pub open spec fn film_sized<S: Scalar>(film: Option<Film<S>>, max_frames: nat) -> bool {
    film matches Some(f) ==> f.sized(max_frames)
}

/// The map of an optional modulation.
pub open spec fn film_model<S: Scalar>(film: Option<Film<S>>) -> Option<Modulation<S>> {
    match film {
        Some(f) => Some(f.model()),
        None => None,
    }
}

/// The same modulation, with room for as many frames, before and after it
/// was used.
pub open spec fn same_film<S: Scalar>(a: Option<Film<S>>, b: Option<Film<S>>) -> bool {
    match (a, b) {
        (Some(a), Some(b)) => {
            &&& b.wf()
            &&& b.model() == a.model()
            &&& b.out.rows == a.out.rows
            &&& b.out.cols == a.out.cols
            &&& b.conv.out.cols == a.conv.out.cols
        },
        (None, None) => true,
        _ => false,
    }
}

/// Modulate the top channels of the first frames in place, where there is a
/// modulation.
pub fn modulate<S: Scalar>(
    film: &mut Option<Film<S>>,
    target: &mut Mat<S>,
    condition: &Mat<S>,
    num_frames: usize,
)
    requires
        lawful::<S>(),
        condition.wf(),
        old(target).wf(),
        *old(film) matches Some(f) ==> {
            &&& f.wf()
            &&& f.dim <= old(target).rows
            &&& f.conv.in_ch <= condition.rows
            &&& num_frames <= f.conv.out.cols
        },
        num_frames <= old(target).cols,
        num_frames <= condition.cols,
    ensures
        same_film(*old(film), *final(film)),
        final(target).shaped(old(target).rows as nat, old(target).cols as nat),
        final(target)@ == overlay(
            old(target)@,
            Seq::new(
                num_frames as nat,
                |f: int|
                    maybe_modulated(film_model(*old(film)), old(target)@[f], condition@[f]),
            ),
        ),
{
    match film {
        Some(film) => {
            film.process_in_place(target, condition, num_frames);
        },
        None => {},
    }
    assert(target@ =~= overlay(
        old(target)@,
        Seq::new(
            num_frames as nat,
            |f: int| maybe_modulated(film_model(*old(film)), old(target)@[f], condition@[f]),
        ),
    ));
}

} // verus!
