//! One layer of the network: a dilated convolution mixed with the condition,
//! an activation with optional gating, a skip output and a residual output.

use crate::num::{lawful, Scalar};
use crate::pure::activations::{
    activated, activated_block, activated_frame, block_defined, defined, total, Act, Activation,
};
use crate::pure::conv1d::{dilated_block, rolled, Conv1D, Dilated};
use crate::pure::film::{
    film_fits, film_model, film_sized, maybe_modulated, modulate, modulated, same_film, Film,
    Modulation,
};
use crate::pure::mat::Mat;
use crate::pure::nn::{affine, overlay, top_rows, Affine, Conv1x1};
use vstd::prelude::*;

verus! {

/// How the upper half of a layer's channels acts on the lower half.
#[derive(Clone, Copy, PartialEq, Eq, Structural, Debug)]
pub enum GatingMode {
    /// There is no upper half.
    Ungated,
    /// It scales.
    Gated,
    /// It blends activated and plain values.
    Blended,
}

// The layer as a mathematical map ============================================

/// A layer as a mathematical map.
pub struct LayerModel<S> {
    /// The convolution of the input.
    pub conv: Dilated<S>,
    /// The contribution of the condition.
    pub mixin: Affine<S>,
    /// The projection to the residual.
    pub layer1x1: Option<Affine<S>>,
    /// The projection to the skip output.
    pub head1x1: Option<Affine<S>>,
    /// The activation.
    pub act: Act<S>,
    /// The activation of the upper half.
    pub secondary: Option<Act<S>>,
    /// What the upper half does.
    pub gating: GatingMode,
    /// Channels after the activation.
    pub bottleneck: nat,
    /// Channels of input and residual.
    pub channels: nat,
    /// Modulation of the convolution's input.
    pub conv_pre: Option<Modulation<S>>,
    /// Modulation of the convolution's output.
    pub conv_post: Option<Modulation<S>>,
    /// Modulation of the condition that is mixed in.
    pub mixin_pre: Option<Modulation<S>>,
    /// Modulation of what the condition contributes.
    pub mixin_post: Option<Modulation<S>>,
    /// Modulation before the activation.
    pub act_pre: Option<Modulation<S>>,
    /// Modulation after the activation.
    pub act_post: Option<Modulation<S>>,
    /// Modulation of the projection to the residual, used when blending.
    pub layer1x1_post: Option<Modulation<S>>,
    /// Modulation of the projection to the skip output.
    pub head1x1_post: Option<Modulation<S>>,
}

/// Channels before the activation.
pub open spec fn z_rows(gating: GatingMode, bottleneck: nat) -> nat {
    if gating == GatingMode::Ungated {
        bottleneck
    } else {
        2 * bottleneck
    }
}

/// The activation of the upper half.
pub open spec fn upper_act<S>(m: LayerModel<S>) -> Act<S> {
    match m.secondary {
        Some(a) => a,
        None => Act::Sigmoid,
    }
}

/// The activations of the layer have values everywhere.
pub open spec fn layer_total<S>(m: LayerModel<S>) -> bool {
    &&& total(m.act)
    &&& m.gating != GatingMode::Ungated ==> total(upper_act(m))
}

/// The activations of the layer have values at the channels of a frame.
pub open spec fn frame_defined<S: Scalar>(m: LayerModel<S>, z: Seq<S>) -> bool {
    if m.gating == GatingMode::Ungated {
        forall|r: int| 0 <= r < z.len() ==> defined(m.act, #[trigger] z[r])
    } else {
        forall|r: int|
            0 <= r < m.bottleneck ==> {
                &&& defined(m.act, #[trigger] z[r])
                &&& defined(upper_act(m), z[m.bottleneck + r])
            }
    }
}

/// What the convolution reads of a frame.
pub open spec fn conv_input<S: Scalar>(m: LayerModel<S>, x: Seq<S>, c: Seq<S>) -> Seq<S> {
    match m.conv_pre {
        Some(f) => modulated(f, x, c),
        None => x.take(m.conv.inputs as int),
    }
}

/// What the condition contributes to a frame.
pub open spec fn mixed<S: Scalar>(m: LayerModel<S>, c: Seq<S>) -> Seq<S> {
    let source = match m.mixin_pre {
        Some(f) => modulated(f, c, c),
        None => c,
    };
    maybe_modulated(m.mixin_post, affine(m.mixin, source), c)
}

/// The sum of convolution and condition.
pub open spec fn summed<S: Scalar>(m: LayerModel<S>, y: Seq<S>, c: Seq<S>) -> Seq<S> {
    let a = maybe_modulated(m.conv_post, y, c);
    let b = mixed(m, c);
    maybe_modulated(
        m.act_pre,
        Seq::new(z_rows(m.gating, m.bottleneck), |r: int| a[r].add_spec(b[r])),
        c,
    )
}

/// A gated or blended channel: `low` and `high` are its values in the two
/// halves.
pub open spec fn gated<S: Scalar>(m: LayerModel<S>, low: S, high: S, r: int) -> S {
    let top = activated(m.act, low, r);
    let bottom = activated(upper_act(m), high, r);
    if m.gating == GatingMode::Gated {
        top.mul_spec(bottom)
    } else {
        bottom.mul_spec(top).add_spec(S::literal_spec(1, 0).sub_spec(bottom).mul_spec(low))
    }
}

/// The activation of frame `f` of a block.
pub open spec fn gated_frame<S: Scalar>(m: LayerModel<S>, z: Seq<S>, f: int) -> Seq<S> {
    if m.gating == GatingMode::Ungated {
        activated_frame(m.act, z, f)
    } else {
        Seq::new(
            z.len(),
            |r: int|
                if r < m.bottleneck {
                    gated(m, z[r], z[m.bottleneck + r], r)
                } else {
                    z[r]
                },
        )
    }
}

/// The activated frame `f` of a block; its top `bottleneck` channels are what
/// the projections read.
pub open spec fn hidden_frame<S: Scalar>(m: LayerModel<S>, y: Seq<S>, c: Seq<S>, f: int) -> Seq<S> {
    maybe_modulated(m.act_post, gated_frame(m, summed(m, y, c), f), c)
}

/// What the layer adds to its input.
pub open spec fn residual<S: Scalar>(
    m: LayerModel<S>,
    p: Affine<S>,
    h: Seq<S>,
    c: Seq<S>,
) -> Seq<S> {
    if m.gating == GatingMode::Blended {
        maybe_modulated(m.layer1x1_post, affine(p, h), c)
    } else {
        affine(p, h)
    }
}

/// The frame that the next layer reads.
pub open spec fn next_frame<S: Scalar>(
    m: LayerModel<S>,
    x: Seq<S>,
    h: Seq<S>,
    c: Seq<S>,
) -> Seq<S> {
    Seq::new(
        m.channels,
        |i: int|
            match m.layer1x1 {
                Some(p) => x[i].add_spec(residual(m, p, h, c)[i]),
                None => x[i],
            },
    )
}

/// The frame that goes to the head.
pub open spec fn skip_frame<S: Scalar>(m: LayerModel<S>, h: Seq<S>, c: Seq<S>) -> Seq<S> {
    match m.head1x1 {
        Some(p) => maybe_modulated(m.head1x1_post, affine(p, h), c),
        None => h,
    }
}

/// What a layer makes of a block.
pub struct LayerRun<S> {
    /// The history that the next block follows.
    pub history: Seq<Seq<S>>,
    /// The activated frames.
    pub hidden: Seq<Seq<S>>,
    /// The frames that go to the head.
    pub skip: Seq<Seq<S>>,
    /// The frames that the next layer reads.
    pub next: Seq<Seq<S>>,
}

/// The frames that the convolution reads of a block.
pub open spec fn conv_inputs<S: Scalar>(
    m: LayerModel<S>,
    x: Seq<Seq<S>>,
    c: Seq<Seq<S>>,
    n: nat,
) -> Seq<Seq<S>> {
    Seq::new(n, |f: int| conv_input(m, x[f], c[f]))
}

/// What a layer makes of the first `n` frames of its input and condition.
pub open spec fn layer_run<S: Scalar>(
    m: LayerModel<S>,
    history: Seq<Seq<S>>,
    x: Seq<Seq<S>>,
    c: Seq<Seq<S>>,
    n: nat,
) -> LayerRun<S> {
    let inputs = conv_inputs(m, x, c, n);
    let y = dilated_block(m.conv, history, inputs);
    let hidden = Seq::new(n, |f: int| hidden_frame(m, y[f], c[f], f));
    LayerRun {
        history: rolled(history, inputs),
        hidden,
        skip: Seq::new(n, |f: int| skip_frame(m, hidden[f], c[f])),
        next: Seq::new(n, |f: int| next_frame(m, x[f], hidden[f], c[f])),
    }
}

/// The activations of the layer have values at everything that the first `n`
/// frames bring them.
pub open spec fn layer_defined<S: Scalar>(
    m: LayerModel<S>,
    history: Seq<Seq<S>>,
    x: Seq<Seq<S>>,
    c: Seq<Seq<S>>,
    n: nat,
) -> bool {
    let y = dilated_block(m.conv, history, conv_inputs(m, x, c, n));
    forall|f: int| 0 <= f < n ==> frame_defined(m, #[trigger] summed(m, y[f], c[f]))
}

// The layer with its buffers =================================================

/// A layer with its buffers.
pub struct Layer<S> {
    /// The convolution of the input.
    pub conv: Conv1D<S>,
    /// The contribution of the condition.
    pub input_mixin: Conv1x1<S>,
    /// The projection to the residual.
    pub layer1x1: Option<Conv1x1<S>>,
    /// The projection to the skip output.
    pub head1x1: Option<Conv1x1<S>>,
    /// The activation.
    pub activation: Activation<S>,
    /// The activation of the upper half.
    pub secondary_activation: Option<Activation<S>>,
    /// What the upper half does.
    pub gating: GatingMode,
    /// Channels after the activation.
    pub bottleneck: usize,
    /// Channels of input and residual.
    pub channels: usize,
    /// Modulation of the convolution's input.
    pub conv_pre_film: Option<Film<S>>,
    /// Modulation of the convolution's output.
    pub conv_post_film: Option<Film<S>>,
    /// Modulation of the condition that is mixed in.
    pub input_mixin_pre_film: Option<Film<S>>,
    /// Modulation of what the condition contributes.
    pub input_mixin_post_film: Option<Film<S>>,
    /// Modulation before the activation.
    pub activation_pre_film: Option<Film<S>>,
    /// Modulation after the activation.
    pub activation_post_film: Option<Film<S>>,
    /// Modulation of the projection to the residual.
    pub layer1x1_post_film: Option<Film<S>>,
    /// Modulation of the projection to the skip output.
    pub head1x1_post_film: Option<Film<S>>,
    /// The sum of convolution and condition, then its activation.
    pub z: Mat<S>,
    /// The frames that the next layer reads.
    pub out_next: Mat<S>,
}

/// The shapes of an optional projection agree.
pub open spec fn proj_fits<S: Scalar>(p: Option<Conv1x1<S>>, inputs: nat) -> bool {
    p matches Some(c) ==> c.wf() && c.in_ch == inputs && c.biased
}

/// The buffer of an optional projection has room for this many frames.
pub open spec fn proj_sized<S: Scalar>(p: Option<Conv1x1<S>>, max_frames: nat) -> bool {
    p matches Some(c) ==> c.sized(max_frames)
}

/// The map of an optional projection.
pub open spec fn proj_model<S: Scalar>(p: Option<Conv1x1<S>>) -> Option<Affine<S>> {
    match p {
        Some(c) => Some(c.model()),
        None => None,
    }
}

/// The map of an optional activation.
pub open spec fn opt_act<S: Scalar>(a: Option<Activation<S>>) -> Option<Act<S>> {
    match a {
        Some(a) => Some(a.model()),
        None => None,
    }
}

/// The frames from the `n`-th on that an optional projection has written.
pub open spec fn proj_right<S: Scalar>(p: Option<Conv1x1<S>>, n: int) -> Option<Seq<Seq<S>>> {
    match p {
        Some(c) => Some(c.out.right(n)),
        None => None,
    }
}

/// The buffers of two layers hold the same from frame `n` on.
pub open spec fn same_later<S: Scalar>(a: Layer<S>, b: Layer<S>, n: int) -> bool {
    &&& b.conv.out.right(n) == a.conv.out.right(n)
    &&& b.input_mixin.out.right(n) == a.input_mixin.out.right(n)
    &&& proj_right(b.layer1x1, n) == proj_right(a.layer1x1, n)
    &&& proj_right(b.head1x1, n) == proj_right(a.head1x1, n)
    &&& b.z.right(n) == a.z.right(n)
    &&& b.skip_spec().right(n) == a.skip_spec().right(n)
    &&& b.out_next.right(n) == a.out_next.right(n)
}

impl<S: Scalar> Layer<S> {
    /// Channels before the activation.
    pub open spec fn zr(&self) -> nat {
        z_rows(self.gating, self.bottleneck as nat)
    }

    /// Channels of the condition.
    pub open spec fn cond(&self) -> nat {
        self.input_mixin.in_ch as nat
    }

    /// The shapes agree.
    pub open spec fn wf(&self) -> bool {
        &&& self.zr() <= usize::MAX
        &&& self.conv.wf()
        &&& self.conv.in_ch == self.channels
        &&& self.conv.out_ch == self.zr()
        &&& self.input_mixin.wf()
        &&& self.input_mixin.out_ch == self.zr()
        &&& proj_fits(self.layer1x1, self.bottleneck as nat)
        &&& self.layer1x1 matches Some(p) ==> p.out_ch == self.channels
        &&& self.layer1x1 is None ==> self.layer1x1_post_film is None
        &&& proj_fits(self.head1x1, self.bottleneck as nat)
        &&& self.head1x1 matches Some(p) ==> film_fits(
            self.head1x1_post_film,
            p.out_ch as nat,
            self.cond(),
        )
        &&& self.head1x1 is None ==> self.head1x1_post_film is None
        &&& film_fits(self.conv_pre_film, self.channels as nat, self.cond())
        &&& film_fits(self.conv_post_film, self.zr(), self.cond())
        &&& film_fits(self.input_mixin_pre_film, self.cond(), self.cond())
        &&& film_fits(self.input_mixin_post_film, self.zr(), self.cond())
        &&& film_fits(self.activation_pre_film, self.zr(), self.cond())
        &&& film_fits(self.activation_post_film, self.bottleneck as nat, self.cond())
        &&& film_fits(self.layer1x1_post_film, self.channels as nat, self.cond())
        &&& self.z.wf()
        &&& self.z.rows == self.zr()
        &&& self.out_next.wf()
        &&& self.out_next.rows == self.channels
    }

    /// The buffers have room for blocks of this many frames.
    pub open spec fn sized(&self, max: nat) -> bool {
        &&& self.conv.sized(max)
        &&& self.input_mixin.sized(max)
        &&& proj_sized(self.layer1x1, max)
        &&& proj_sized(self.head1x1, max)
        &&& film_sized(self.conv_pre_film, max)
        &&& film_sized(self.conv_post_film, max)
        &&& film_sized(self.input_mixin_pre_film, max)
        &&& film_sized(self.input_mixin_post_film, max)
        &&& film_sized(self.activation_pre_film, max)
        &&& film_sized(self.activation_post_film, max)
        &&& film_sized(self.layer1x1_post_film, max)
        &&& film_sized(self.head1x1_post_film, max)
        &&& self.z.cols == max
        &&& self.out_next.cols == max
    }

    /// The map that this layer computes.
    pub open spec fn model(&self) -> LayerModel<S> {
        LayerModel {
            conv: self.conv.model(),
            mixin: self.input_mixin.model(),
            layer1x1: proj_model(self.layer1x1),
            head1x1: proj_model(self.head1x1),
            act: self.activation.model(),
            secondary: opt_act(self.secondary_activation),
            gating: self.gating,
            bottleneck: self.bottleneck as nat,
            channels: self.channels as nat,
            conv_pre: film_model(self.conv_pre_film),
            conv_post: film_model(self.conv_post_film),
            mixin_pre: film_model(self.input_mixin_pre_film),
            mixin_post: film_model(self.input_mixin_post_film),
            act_pre: film_model(self.activation_pre_film),
            act_post: film_model(self.activation_post_film),
            layer1x1_post: film_model(self.layer1x1_post_film),
            head1x1_post: film_model(self.head1x1_post_film),
        }
    }

    /// Channels of the skip output.
    pub open spec fn skip_rows(&self) -> nat {
        match self.head1x1 {
            Some(p) => p.out_ch as nat,
            None => self.zr(),
        }
    }

    /// Where the frames for the head are.
    pub open spec fn skip_spec(&self) -> Mat<S> {
        match self.head1x1 {
            Some(p) => p.out,
            None => self.z,
        }
    }

    /// The frames for the head: the output of the projection, or the activated
    /// channels.
    pub fn skip(&self) -> (r: &Mat<S>)
        ensures
            *r == self.skip_spec(),
    {
        match &self.head1x1 {
            Some(p) => &p.out,
            None => &self.z,
        }
    }

    /// Run the layer on the first `num_frames` frames.
    #[verifier::spinoff_prover]
    #[verifier::rlimit(100)]
    pub fn process(&mut self, input: &Mat<S>, condition: &Mat<S>, num_frames: usize)
        requires
            lawful::<S>(),
            old(self).wf(),
            old(self).sized(old(self).z.cols as nat),
            layer_defined(
                old(self).model(),
                old(self).conv.history(),
                input@,
                condition@,
                num_frames as nat,
            ),
            input.wf(),
            condition.wf(),
            old(self).channels <= input.rows,
            old(self).cond() <= condition.rows,
            num_frames <= input.cols,
            num_frames <= condition.cols,
            num_frames <= old(self).z.cols,
        ensures
            final(self).wf(),
            final(self).sized(old(self).z.cols as nat),
            final(self).model() == old(self).model(),
            ({
                let run = layer_run(
                    old(self).model(),
                    old(self).conv.history(),
                    input@,
                    condition@,
                    num_frames as nat,
                );
                &&& final(self).conv.history() == run.history
                &&& final(self).z.left(num_frames as int) == run.hidden
                &&& final(self).skip_spec().left(num_frames as int) == run.skip
                &&& final(self).out_next.left(num_frames as int) == run.next
            }),
            same_later(*old(self), *final(self), num_frames as int),
    {
        let ghost n = num_frames as int;
        self.activate(input, condition, num_frames);
        let ghost mid = *self;
        self.give_on(input, condition, num_frames);
        proof {
            let run = layer_run(
                old(self).model(),
                old(self).conv.history(),
                input@,
                condition@,
                num_frames as nat,
            );
            assert forall|f: int| 0 <= f < n implies #[trigger] mid.z@[f] == run.hidden[f] by {
                assert(mid.z.left(n)[f] == run.hidden[f]);
            }
            assert(self.skip_spec().left(n) =~= run.skip);
            assert(self.out_next.left(n) =~= run.next);
        }
        assert(same_later(*old(self), *self, n)) by {
            assert(same_later(*old(self), mid, n));
        }
    }

    /// Convolve the input, mix the condition in, and activate the sum.
    #[verifier::spinoff_prover]
    #[verifier::rlimit(60)]
    fn activate(&mut self, input: &Mat<S>, condition: &Mat<S>, num_frames: usize)
        requires
            lawful::<S>(),
            old(self).wf(),
            old(self).sized(old(self).z.cols as nat),
            layer_defined(
                old(self).model(),
                old(self).conv.history(),
                input@,
                condition@,
                num_frames as nat,
            ),
            input.wf(),
            condition.wf(),
            old(self).channels <= input.rows,
            old(self).cond() <= condition.rows,
            num_frames <= input.cols,
            num_frames <= condition.cols,
            num_frames <= old(self).z.cols,
        ensures
            final(self).wf(),
            final(self).sized(old(self).z.cols as nat),
            final(self).z.cols == old(self).z.cols,
            final(self).model() == old(self).model(),
            ({
                let run = layer_run(
                    old(self).model(),
                    old(self).conv.history(),
                    input@,
                    condition@,
                    num_frames as nat,
                );
                &&& final(self).conv.history() == run.history
                &&& final(self).z.left(num_frames as int) == run.hidden
            }),
            final(self).layer1x1 == old(self).layer1x1,
            final(self).head1x1 == old(self).head1x1,
            final(self).out_next == old(self).out_next,
            same_later(*old(self), *final(self), num_frames as int),
    {
        let ghost m = self.model();
        let ghost n = num_frames as nat;
        let ghost hist = self.conv.history();
        let ghost x = input@;
        let ghost c = condition@;
        let ghost y = dilated_block(m.conv, hist, conv_inputs(m, x, c, n));
        convolve(
            &mut self.conv,
            &mut self.conv_pre_film,
            &mut self.conv_post_film,
            input,
            condition,
            num_frames,
            Ghost(m),
        );
        mix(
            &mut self.input_mixin,
            &mut self.input_mixin_pre_film,
            &mut self.input_mixin_post_film,
            condition,
            num_frames,
            Ghost(m),
        );
        add_frames(&self.conv.out, &self.input_mixin.out, &mut self.z, num_frames);
        modulate(&mut self.activation_pre_film, &mut self.z, condition, num_frames);
        assert(forall|f: int|
            0 <= f < n ==> #[trigger] self.z@[f] == summed(m, y[f], c[f])) by {
            assert forall|f: int| 0 <= f < n implies #[trigger] self.z@[f] == summed(
                m,
                y[f],
                c[f],
            ) by {
                let _ = self.conv.out@[f];
                let _ = self.input_mixin.out@[f];
            }
        }
        gate(
            &self.activation,
            &self.secondary_activation,
            self.gating,
            self.bottleneck,
            &mut self.z,
            num_frames,
            Ghost(m),
        );
        modulate(&mut self.activation_post_film, &mut self.z, condition, num_frames);
        assert(self.z.left(num_frames as int) =~= layer_run(m, hist, x, c, n).hidden);
        assert(self.z.right(n as int) =~= old(self).z.right(n as int));
    }

    /// Project what has been activated, to the residual and to the skip output.
    #[verifier::spinoff_prover]
    #[verifier::rlimit(60)]
    fn give_on(&mut self, input: &Mat<S>, condition: &Mat<S>, num_frames: usize)
        requires
            lawful::<S>(),
            old(self).wf(),
            old(self).sized(old(self).z.cols as nat),
            input.wf(),
            condition.wf(),
            old(self).channels <= input.rows,
            old(self).cond() <= condition.rows,
            num_frames <= input.cols,
            num_frames <= condition.cols,
            num_frames <= old(self).z.cols,
        ensures
            final(self).wf(),
            final(self).sized(old(self).z.cols as nat),
            final(self).model() == old(self).model(),
            final(self).conv == old(self).conv,
            final(self).z == old(self).z,
            final(self).skip_spec().left(num_frames as int) == Seq::new(
                num_frames as nat,
                |f: int| skip_frame(old(self).model(), old(self).z@[f], condition@[f]),
            ),
            final(self).out_next.left(num_frames as int) == Seq::new(
                num_frames as nat,
                |f: int|
                    next_frame(old(self).model(), input@[f], old(self).z@[f], condition@[f]),
            ),
            same_later(*old(self), *final(self), num_frames as int),
    {
        let ghost m = self.model();
        let ghost n = num_frames as nat;
        let ghost c = condition@;
        let blended = self.gating == GatingMode::Blended;
        project(
            &mut self.layer1x1,
            &mut self.layer1x1_post_film,
            &self.z,
            blended,
            condition,
            num_frames,
        );
        project(
            &mut self.head1x1,
            &mut self.head1x1_post_film,
            &self.z,
            true,
            condition,
            num_frames,
        );
        assert(self.skip_spec().left(n as int) =~= Seq::new(
            n,
            |f: int| skip_frame(m, self.z@[f], c[f]),
        ));
        match &self.layer1x1 {
            Some(p) => {
                add_frames(input, &p.out, &mut self.out_next, num_frames);
            },
            None => {
                copy_frames(input, &mut self.out_next, num_frames);
            },
        }
        assert forall|f: int| 0 <= f < n implies #[trigger] self.out_next@[f] == next_frame(
            m,
            input@[f],
            self.z@[f],
            c[f],
        ) by {
            assert(self.out_next@[f] =~= next_frame(m, input@[f], self.z@[f], c[f]));
        }
        assert(self.out_next.left(n as int) =~= Seq::new(
            n,
            |f: int| next_frame(m, input@[f], self.z@[f], c[f]),
        ));
        assert(self.out_next.right(n as int) =~= old(self).out_next.right(n as int));
    }
}

/// Convolve the first frames of the input, between its two modulations.
fn convolve<S: Scalar>(
    conv: &mut Conv1D<S>,
    pre: &mut Option<Film<S>>,
    post: &mut Option<Film<S>>,
    input: &Mat<S>,
    condition: &Mat<S>,
    num_frames: usize,
    Ghost(m): Ghost<LayerModel<S>>,
)
    requires
        lawful::<S>(),
        m.conv == old(conv).model(),
        m.conv_pre == film_model(*old(pre)),
        m.conv_post == film_model(*old(post)),
        old(conv).wf(),
        old(conv).sized(old(conv).max_frames as nat),
        input.wf(),
        condition.wf(),
        old(conv).in_ch <= input.rows,
        *old(pre) matches Some(f) ==> {
            &&& f.wf()
            &&& f.sized(old(conv).max_frames as nat)
            &&& f.dim == old(conv).in_ch
            &&& f.conv.in_ch <= condition.rows
        },
        *old(post) matches Some(f) ==> {
            &&& f.wf()
            &&& f.sized(old(conv).max_frames as nat)
            &&& f.dim == old(conv).out_ch
            &&& f.conv.in_ch <= condition.rows
        },
        num_frames <= input.cols,
        num_frames <= condition.cols,
        num_frames <= old(conv).max_frames,
    ensures
        final(conv).wf(),
        final(conv).same_map(old(conv)),
        final(conv).sized(old(conv).max_frames as nat),
        same_film(*old(pre), *final(pre)),
        same_film(*old(post), *final(post)),
        final(conv).history() == rolled(
            old(conv).history(),
            conv_inputs(m, input@, condition@, num_frames as nat),
        ),
        forall|f: int|
            0 <= f < num_frames ==> #[trigger] final(conv).out@[f] == maybe_modulated(
                m.conv_post,
                dilated_block(
                    m.conv,
                    old(conv).history(),
                    conv_inputs(m, input@, condition@, num_frames as nat),
                )[f],
                condition@[f],
            ),
        final(conv).out.right(num_frames as int) == old(conv).out.right(num_frames as int),
{
    let ghost n = num_frames as nat;
    let ghost inputs = conv_inputs(m, input@, condition@, n);
    match pre {
        Some(film) => {
            film.process(input, condition, num_frames);
            assert(top_rows(film.out@, n, m.conv.inputs) =~= inputs) by {
                assert forall|f: int| 0 <= f < n implies top_rows(
                    film.out@,
                    n,
                    m.conv.inputs,
                )[f] == #[trigger] inputs[f] by {
                    assert(film.out@[f].take(m.conv.inputs as int) =~= film.out@[f]);
                }
            }
            conv.process(&film.out, num_frames);
        },
        None => {
            assert(top_rows(input@, n, m.conv.inputs) =~= inputs);
            conv.process(input, num_frames);
        },
    }
    let ghost y = dilated_block(m.conv, old(conv).history(), inputs);
    assert(forall|f: int| 0 <= f < n ==> #[trigger] conv.out@[f] == y[f]);
    modulate(post, &mut conv.out, condition, num_frames);
    assert(conv.out.right(n as int) =~= old(conv).out.right(n as int));
}

/// What the condition contributes to the first frames.
fn mix<S: Scalar>(
    mixin: &mut Conv1x1<S>,
    pre: &mut Option<Film<S>>,
    post: &mut Option<Film<S>>,
    condition: &Mat<S>,
    num_frames: usize,
    Ghost(m): Ghost<LayerModel<S>>,
)
    requires
        lawful::<S>(),
        m.mixin == old(mixin).model(),
        m.mixin_pre == film_model(*old(pre)),
        m.mixin_post == film_model(*old(post)),
        old(mixin).wf(),
        condition.wf(),
        old(mixin).in_ch <= condition.rows,
        *old(pre) matches Some(f) ==> {
            &&& f.wf()
            &&& f.sized(old(mixin).out.cols as nat)
            &&& f.dim == old(mixin).in_ch
            &&& f.conv.in_ch <= condition.rows
        },
        *old(post) matches Some(f) ==> {
            &&& f.wf()
            &&& f.sized(old(mixin).out.cols as nat)
            &&& f.dim == old(mixin).out_ch
            &&& f.conv.in_ch <= condition.rows
        },
        num_frames <= condition.cols,
        num_frames <= old(mixin).out.cols,
    ensures
        final(mixin).wf(),
        final(mixin).model() == old(mixin).model(),
        final(mixin).out.cols == old(mixin).out.cols,
        same_film(*old(pre), *final(pre)),
        same_film(*old(post), *final(post)),
        forall|f: int|
            0 <= f < num_frames ==> #[trigger] final(mixin).out@[f] == mixed(m, condition@[f]),
        final(mixin).out.right(num_frames as int) == old(mixin).out.right(num_frames as int),
{
    match pre {
        Some(film) => {
            film.process(condition, condition, num_frames);
            mixin.process(&film.out, num_frames);
        },
        None => {
            mixin.process(condition, num_frames);
        },
    }
    modulate(post, &mut mixin.out, condition, num_frames);
    assert(mixin.out.right(num_frames as int) =~= old(mixin).out.right(num_frames as int));
}

/// Project the first activated frames, where there is a projection, and
/// modulate what it gives where that is asked for.
fn project<S: Scalar>(
    proj: &mut Option<Conv1x1<S>>,
    post: &mut Option<Film<S>>,
    z: &Mat<S>,
    modulates: bool,
    condition: &Mat<S>,
    num_frames: usize,
)
    requires
        lawful::<S>(),
        z.wf(),
        condition.wf(),
        *old(proj) matches Some(p) ==> {
            &&& p.wf()
            &&& p.in_ch <= z.rows
            &&& num_frames <= p.out.cols
            &&& *old(post) matches Some(f) ==> {
                &&& f.wf()
                &&& f.dim == p.out_ch
                &&& f.conv.in_ch <= condition.rows
                &&& num_frames <= f.conv.out.cols
            }
        },
        *old(proj) is None ==> *old(post) is None,
        num_frames <= z.cols,
        num_frames <= condition.cols,
    ensures
        same_film(*old(post), *final(post)),
        match (*old(proj), *final(proj)) {
            (Some(p), Some(q)) => {
                &&& q.wf()
                &&& q.model() == p.model()
                &&& q.biased == p.biased
                &&& q.out.cols == p.out.cols
                &&& q.out.right(num_frames as int) == p.out.right(num_frames as int)
                &&& forall|f: int|
                    0 <= f < num_frames ==> #[trigger] q.out@[f] == if modulates {
                        maybe_modulated(
                            film_model(*old(post)),
                            affine(p.model(), z@[f]),
                            condition@[f],
                        )
                    } else {
                        affine(p.model(), z@[f])
                    }
            },
            (None, None) => true,
            _ => false,
        },
{
    match proj {
        Some(p) => {
            p.process(z, num_frames);
            if modulates {
                modulate(post, &mut p.out, condition, num_frames);
            }
            assert(p.out.right(num_frames as int) =~= (*old(proj))->0.out.right(
                num_frames as int,
            ));
        },
        None => {},
    }
}

/// Add the first frames of two matrices, as far as the target has channels.
pub fn add_frames<S: Scalar>(a: &Mat<S>, b: &Mat<S>, z: &mut Mat<S>, num_frames: usize)
    requires
        lawful::<S>(),
        a.wf(),
        b.wf(),
        old(z).wf(),
        old(z).rows <= a.rows,
        old(z).rows <= b.rows,
        num_frames <= a.cols,
        num_frames <= b.cols,
        num_frames <= old(z).cols,
    ensures
        final(z).shaped(old(z).rows as nat, old(z).cols as nat),
        final(z)@ == overlay(
            old(z)@,
            Seq::new(
                num_frames as nat,
                |f: int| Seq::new(old(z).rows as nat, |r: int| a@[f][r].add_spec(b@[f][r])),
            ),
        ),
{
    let ghost first = z@;
    let ghost rows = z.rows as nat;
    let ghost want = Seq::new(
        num_frames as nat,
        |f: int| Seq::new(rows, |r: int| a@[f][r].add_spec(b@[f][r])),
    );
    let mut f: usize = 0;
    assert(z@ =~= overlay(first, want.take(0)));
    while f < num_frames
        invariant
            lawful::<S>(),
            a.wf(),
            b.wf(),
            z.shaped(old(z).rows as nat, old(z).cols as nat),
            rows == z.rows,
            z.rows <= a.rows,
            z.rows <= b.rows,
            f <= num_frames <= a.cols,
            num_frames <= b.cols,
            num_frames <= z.cols,
            first == old(z)@,
            want == Seq::new(
                num_frames as nat,
                |f: int| Seq::new(rows, |r: int| a@[f][r].add_spec(b@[f][r])),
            ),
            z@ == overlay(first, want.take(f as int)),
        decreases num_frames - f,
    {
        let ghost before = z@;
        let mut r: usize = 0;
        while r < z.rows
            invariant
                lawful::<S>(),
                a.wf(),
                b.wf(),
                z.shaped(old(z).rows as nat, old(z).cols as nat),
                rows == z.rows,
                z.rows <= a.rows,
                z.rows <= b.rows,
                f < num_frames <= a.cols,
                num_frames <= b.cols,
                num_frames <= z.cols,
                r <= z.rows,
                want == Seq::new(
                    num_frames as nat,
                    |f: int| Seq::new(rows, |r: int| a@[f][r].add_spec(b@[f][r])),
                ),
                before.len() == z.cols,
                forall|q: int|
                    0 <= q < before.len() && q != f ==> #[trigger] z@[q] == before[q],
                z@[f as int].len() == rows,
                forall|q: int| 0 <= q < r ==> #[trigger] z@[f as int][q] == want[f as int][q],
            decreases z.rows - r,
        {
            let v = a.get(r, f).add(b.get(r, f));
            z.set(r, f, v);
            r += 1;
        }
        f += 1;
        proof {
            assert(z@[f - 1] =~= want[f - 1]);
            assert(z@ =~= overlay(first, want.take(f as int)));
        }
    }
    assert(want.take(num_frames as int) =~= want);
}

/// Copy the first frames of a matrix, as far as the target has channels.
pub fn copy_frames<S: Scalar>(a: &Mat<S>, z: &mut Mat<S>, num_frames: usize)
    requires
        a.wf(),
        old(z).wf(),
        old(z).rows <= a.rows,
        num_frames <= a.cols,
        num_frames <= old(z).cols,
    ensures
        final(z).shaped(old(z).rows as nat, old(z).cols as nat),
        final(z)@ == overlay(old(z)@, top_rows(a@, num_frames as nat, old(z).rows as nat)),
{
    let ghost first = z@;
    let ghost want = top_rows(a@, num_frames as nat, z.rows as nat);
    let mut f: usize = 0;
    assert(z@ =~= overlay(first, want.take(0)));
    while f < num_frames
        invariant
            a.wf(),
            z.shaped(old(z).rows as nat, old(z).cols as nat),
            z.rows <= a.rows,
            f <= num_frames <= a.cols,
            num_frames <= z.cols,
            first == old(z)@,
            want == top_rows(a@, num_frames as nat, z.rows as nat),
            z@ == overlay(first, want.take(f as int)),
        decreases num_frames - f,
    {
        let src = vstd::slice::slice_subrange(a.col(f), 0, z.rows);
        z.put_col(f, src);
        f += 1;
        proof {
            assert(src@ =~= want[f - 1]);
            assert(z@ =~= overlay(first, want.take(f as int)));
        }
    }
    assert(want.take(num_frames as int) =~= want);
}

/// Activate the first frames in place, with the upper half where there is
/// one.
fn gate<S: Scalar>(
    act: &Activation<S>,
    secondary: &Option<Activation<S>>,
    gating: GatingMode,
    bottleneck: usize,
    z: &mut Mat<S>,
    num_frames: usize,
    Ghost(m): Ghost<LayerModel<S>>,
)
    requires
        lawful::<S>(),
        m.act == act.model(),
        m.secondary == opt_act(*secondary),
        m.gating == gating,
        m.bottleneck == bottleneck,
        forall|f: int| 0 <= f < num_frames ==> frame_defined(m, #[trigger] old(z)@[f]),
        old(z).wf(),
        old(z).rows == z_rows(gating, bottleneck as nat),
        num_frames <= old(z).cols,
    ensures
        final(z).shaped(old(z).rows as nat, old(z).cols as nat),
        final(z)@ == overlay(
            old(z)@,
            Seq::new(num_frames as nat, |f: int| gated_frame(m, old(z)@[f], f)),
        ),
{
    let ghost first = z@;
    let ghost want = Seq::new(num_frames as nat, |f: int| gated_frame(m, first[f], f));
    if gating == GatingMode::Ungated {
        assert(block_defined(m.act, z@.take(num_frames as int))) by {
            assert forall|f: int, r: int|
                0 <= f < num_frames && 0 <= r < first[f].len() implies defined(
                m.act,
                #[trigger] first.take(num_frames as int)[f][r],
            ) by {
                assert(frame_defined(m, first[f]));
            }
        }
        act.apply_left(z, num_frames);
        assert(activated_block(m.act, first.take(num_frames as int)) =~= want);
        return;
    }
    let sigmoid: Activation<S> = Activation::Sigmoid;
    let upper: &Activation<S> = match secondary {
        Some(a) => a,
        None => &sigmoid,
    };
    let mut f: usize = 0;
    assert(z@ =~= overlay(first, want.take(0)));
    while f < num_frames
        invariant
            lawful::<S>(),
            m.act == act.model(),
            upper_act(m) == upper.model(),
            m.gating == gating,
            m.bottleneck == bottleneck,
            m.gating != GatingMode::Ungated,
            forall|f: int| 0 <= f < num_frames ==> frame_defined(m, #[trigger] first[f]),
            z.shaped(old(z).rows as nat, old(z).cols as nat),
            z.rows == 2 * bottleneck,
            f <= num_frames <= z.cols,
            first == old(z)@,
            want == Seq::new(num_frames as nat, |f: int| gated_frame(m, first[f], f)),
            z@ == overlay(first, want.take(f as int)),
        decreases num_frames - f,
    {
        let ghost before = z@;
        let ghost t = first[f as int];
        assert(before[f as int] == t);
        let mut r: usize = 0;
        while r < bottleneck
            invariant
                lawful::<S>(),
                m.act == act.model(),
                upper_act(m) == upper.model(),
                m.gating == gating,
                m.bottleneck == bottleneck,
                m.gating != GatingMode::Ungated,
                frame_defined(m, t),
                z.shaped(old(z).rows as nat, old(z).cols as nat),
                z.rows == 2 * bottleneck,
                f < num_frames <= z.cols,
                r <= bottleneck,
                t.len() == z.rows,
                before.len() == z.cols,
                forall|q: int|
                    0 <= q < before.len() && q != f ==> #[trigger] z@[q] == before[q],
                z@[f as int].len() == z.rows,
                forall|q: int|
                    0 <= q < r ==> #[trigger] z@[f as int][q] == gated(
                        m,
                        t[q],
                        t[bottleneck + q],
                        q,
                    ),
                forall|q: int| r <= q < z.rows ==> #[trigger] z@[f as int][q] == t[q],
            decreases bottleneck - r,
        {
            let low = z.get(r, f);
            let high = z.get(bottleneck + r, f);
            let top = act.scalar(low, r);
            let bottom = upper.scalar(high, r);
            let v = if gating == GatingMode::Gated {
                top.mul(bottom)
            } else {
                bottom.mul(top).add(S::literal(1, 0).sub(bottom).mul(low))
            };
            z.set(r, f, v);
            r += 1;
        }
        f += 1;
        proof {
            assert(z@[f - 1] =~= gated_frame(m, t, f - 1));
            assert(z@ =~= overlay(first, want.take(f as int)));
        }
    }
    assert(want.take(num_frames as int) =~= want);
}

} // verus!
