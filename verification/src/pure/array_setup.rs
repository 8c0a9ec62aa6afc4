//! Preparing a stack of layers: its reach, its buffers and its weights.

use crate::num::{lawful, Scalar};
use crate::pure::conv1d::{lookback, Conv1D};
use crate::pure::layer::Layer;
use crate::pure::layer_array::{
    array_fits, array_reach, array_rest, layer_models, layers_reach, layers_wf, LayerArray,
};
use crate::pure::layer_setup::layer_fits;
use crate::pure::mat::silence;
use crate::pure::nn::{underflow_text, Weights};
use crate::pure::plan::{array_count, array_from, layer_from, layers_start, ArrayPlan, LayerPlan};
use vstd::prelude::*;

verus! {

impl<S: Scalar> Conv1D<S> {
    /// How many frames this convolution looks back, where that can be counted.
    pub fn checked_lookback(&self) -> (r: Option<usize>)
        requires
            self.wf(),
        ensures
            match r {
                Some(v) => v == lookback(self.model()),
                None => lookback(self.model()) > usize::MAX,
            },
    {
        (self.weight.len() - 1).checked_mul(self.dilation)
    }
}

/// A sum that fits, where both terms do.
pub fn checked_sum(a: Option<usize>, b: Option<usize>) -> (r: Option<usize>)
    ensures
        r == match (a, b) {
            (Some(x), Some(y)) => if x + y <= usize::MAX {
                Some((x + y) as usize)
            } else {
                None
            },
            _ => None,
        },
{
    match (a, b) {
        (Some(x), Some(y)) => x.checked_add(y),
        _ => None,
    }
}

impl<S: Scalar> LayerArray<S> {
    /// How many frames this stack looks back, where that can be counted.
    pub fn receptive_field(&self) -> (r: Option<usize>)
        requires
            self.wf(),
        ensures
            match r {
                Some(v) => v == array_reach(self.model()),
                None => array_reach(self.model()) > usize::MAX,
            },
    {
        let ghost models = self.model().layers;
        let mut rf: Option<usize> = Some(0);
        let mut i: usize = 0;
        while i < self.layers.len()
            invariant
                self.wf(),
                i <= self.layers@.len(),
                models == layer_models(self.layers@),
                match rf {
                    Some(v) => v == layers_reach(models.take(i as int)),
                    None => layers_reach(models.take(i as int)) > usize::MAX,
                },
            decreases self.layers@.len() - i,
        {
            rf = checked_sum(rf, self.layers[i].conv.checked_lookback());
            proof {
                let part = models.take(i + 1);
                assert(part.drop_last() =~= models.take(i as int));
                assert(part.last() == self.layers@[i as int].model());
                assert(self.layers@[i as int].wf());
                lemma_reach_positive(self.layers@, i as int);
                assert(lookback(part.last().conv) >= 0) by (nonlinear_arith)
                    requires
                        part.last().conv.weight.len() >= 1,
                        lookback(part.last().conv) == (part.last().conv.weight.len() - 1)
                            * part.last().conv.dilation,
                ;
            }
            i += 1;
        }
        assert(models.take(i as int) =~= models);
        proof {
            lemma_reach_positive(self.layers@, i as int);
            assert(lookback(self.head_rechannel.model()) >= 0) by (nonlinear_arith)
                requires
                    self.head_rechannel.model().weight.len() >= 1,
                    lookback(self.head_rechannel.model()) == (
                    self.head_rechannel.model().weight.len() - 1)
                        * self.head_rechannel.model().dilation,
            ;
        }
        checked_sum(rf, self.head_rechannel.checked_lookback())
    }

    /// Forget the history and make room for blocks of up to `max_frames`
    /// frames.
    pub fn set_max_buffer_size(&mut self, max_frames: usize)
        requires
            lawful::<S>(),
            old(self).wf(),
            array_fits(old(self).model(), max_frames as nat),
        ensures
            final(self).wf(),
            final(self).model() == old(self).model(),
            final(self).sized(max_frames as nat),
            final(self).state() == array_rest(old(self).model()),
    {
        let ghost m = self.model();
        self.rechannel.set_max_buffer_size(max_frames);
        self.head_rechannel.set_max_buffer_size(max_frames);
        let ghost entry = *self;
        let mut i: usize = 0;
        while i < self.layers.len()
            invariant
                lawful::<S>(),
                i <= self.layers@.len(),
                self.layers@.len() == m.layers.len(),
                self.rechannel == entry.rechannel,
                self.head_rechannel == entry.head_rechannel,
                self.head_output_size == entry.head_output_size,
                self.head_inputs == entry.head_inputs,
                layers_wf(self.layers@, self.rechannel.out_ch, self.head_output_size),
                layer_models(self.layers@) == m.layers,
                forall|j: int|
                    0 <= j < m.layers.len() ==> layer_fits(
                        #[trigger] m.layers[j],
                        max_frames as nat,
                    ),
                forall|j: int|
                    0 <= j < i ==> {
                        &&& (#[trigger] self.layers@[j]).sized(max_frames as nat)
                        &&& self.layers@[j].conv.history() == silence::<S>(
                            m.layers[j].channels,
                            lookback(m.layers[j].conv) as nat,
                        )
                    },
            decreases self.layers@.len() - i,
        {
            assert(m.layers[i as int] == self.layers@[i as int].model());
            let ghost was = self.layers@;
            self.layers[i].set_max_buffer_size(max_frames);
            assert(layer_models(self.layers@) =~= m.layers);
            i += 1;
        }
        self.head_inputs.reset(self.head_output_size, max_frames);
        assert(self.state() =~= array_rest(m)) by {
            assert(self.state().layers =~= array_rest(m).layers);
        }
    }
}

/// The layers of a stack look back, not ahead.
proof fn lemma_reach_positive<S: Scalar>(layers: Seq<Layer<S>>, n: int)
    requires
        0 <= n <= layers.len(),
        forall|i: int| 0 <= i < layers.len() ==> (#[trigger] layers[i]).wf(),
    ensures
        layers_reach(layer_models(layers).take(n)) >= 0,
    decreases n,
{
    if n > 0 {
        let part = layer_models(layers).take(n);
        assert(part.drop_last() =~= layer_models(layers).take(n - 1));
        assert(part.last() == layers[n - 1].model());
        assert(layers[n - 1].wf());
        assert(lookback(part.last().conv) >= 0) by (nonlinear_arith)
            requires
                part.last().conv.weight.len() >= 1,
                lookback(part.last().conv) == (part.last().conv.weight.len() - 1)
                    * part.last().conv.dilation,
        ;
        lemma_reach_positive(layers, n - 1);
    }
}

// Weights ====================================================================

/// The shapes of the layers.
pub open spec fn layer_plans<S: Scalar>(layers: Seq<Layer<S>>) -> Seq<LayerPlan<S>> {
    Seq::new(layers.len(), |i: int| layers[i].plan())
}

/// Layers start one after the other.
pub proof fn lemma_layers_start<S>(layers: Seq<LayerPlan<S>>, j: nat, k: nat)
    requires
        j <= k,
    ensures
        layers_start(layers, j) <= layers_start(layers, k),
    decreases k - j,
{
    if j < k {
        lemma_layers_start(layers, j, (k - 1) as nat);
    }
}

/// Every layer adds a bias as the list of weights has it.
pub open spec fn layers_biased<S: Scalar>(layers: Seq<Layer<S>>) -> bool {
    forall|i: int| 0 <= i < layers.len() ==> (#[trigger] layers[i]).standard_bias()
}

/// Each layer can read the weights that its plan gives.
spec fn all_planned<S: Scalar>(layers: Seq<Layer<S>>, plans: Seq<LayerPlan<S>>) -> bool {
    forall|i: int|
        0 <= i < layers.len() ==> layer_as_planned(#[trigger] layers[i], plans[i])
}

/// The layer can read the weights that a plan gives.
#[verifier::opaque]
spec fn layer_as_planned<S: Scalar>(layer: Layer<S>, p: LayerPlan<S>) -> bool {
    &&& layer.wf()
    &&& layer.standard_bias()
    &&& layer.plan() == p
}

/// Layers are of their own shape.
proof fn lemma_planned<S: Scalar>(layers: Seq<Layer<S>>, channels: usize, head_rows: usize)
    requires
        layers_wf(layers, channels, head_rows),
        layers_biased(layers),
    ensures
        all_planned(layers, layer_plans(layers)),
{
    reveal(layer_as_planned);
}

/// Layers that keep their shapes still fit each other.
proof fn lemma_still_planned<S: Scalar>(
    layers: Seq<Layer<S>>,
    was: Seq<Layer<S>>,
    channels: usize,
    head_rows: usize,
)
    requires
        layers_wf(was, channels, head_rows),
        layers.len() == was.len(),
        all_planned(layers, layer_plans(was)),
    ensures
        layers_wf(layers, channels, head_rows),
        layers_biased(layers),
        layer_plans(layers) == layer_plans(was),
{
    reveal(layer_as_planned);
    assert forall|i: int| 0 <= i < layers.len() implies {
        &&& (#[trigger] layers[i]).wf()
        &&& layers[i].standard_bias()
        &&& layers[i].plan() == was[i].plan()
    } by {
        assert(layer_as_planned(layers[i], layer_plans(was)[i]));
    }
    assert forall|i: int| 0 <= i < layers.len() implies {
        &&& (#[trigger] layers[i]).channels == channels
        &&& layers[i].skip_rows() >= head_rows
    } by {
        assert(was[i].wf());
        lemma_planned_rows(layers[i], was[i]);
    }
    assert(layer_plans(layers) =~= layer_plans(was));
}

/// Layers of one shape have the same channels.
proof fn lemma_planned_rows<S: Scalar>(a: Layer<S>, b: Layer<S>)
    requires
        a.plan() == b.plan(),
    ensures
        a.channels == b.channels,
        a.skip_rows() == b.skip_rows(),
{
}

/// Take the weights of all layers from a list.
fn load_layers<S: Scalar>(
    layers: &mut Vec<Layer<S>>,
    w: &mut Weights<S>,
    Ghost(plans): Ghost<Seq<LayerPlan<S>>>,
) -> (r: Result<(), String>)
    requires
        lawful::<S>(),
        plans.len() == old(layers)@.len(),
        all_planned(old(layers)@, plans),
        old(w).wf(),
    ensures
        final(layers)@.len() == old(layers)@.len(),
        all_planned(final(layers)@, plans),
        final(w).wf(),
        final(w).data == old(w).data,
        r is Ok <==> old(w).pos + layers_start(plans, plans.len()) <= old(w).data@.len(),
        r is Ok ==> {
            &&& final(w).pos == old(w).pos + layers_start(plans, plans.len())
            &&& forall|i: int|
                0 <= i < plans.len() ==> (#[trigger] final(layers)@[i]).model() == layer_from(
                    plans[i],
                    old(w).data@,
                    old(w).pos + layers_start(plans, i as nat),
                )
        },
        r matches Err(e) ==> e@ == underflow_text(old(w).data@.len()),
{
    let ghost pos = w.pos as int;
    let ghost data = w.data@;
    let mut i: usize = 0;
    while i < layers.len()
        invariant
            lawful::<S>(),
            i <= layers@.len(),
            plans.len() == layers@.len(),
            all_planned(layers@, plans),
            w.wf(),
            w.data == old(w).data,
            w.data@ == data,
            plans.len() == old(layers)@.len(),
            pos == old(w).pos,
            w.pos == pos + layers_start(plans, i as nat),
            forall|j: int|
                0 <= j < i ==> (#[trigger] layers@[j]).model() == layer_from(
                    plans[j],
                    data,
                    pos + layers_start(plans, j as nat),
                ),
        decreases layers@.len() - i,
    {
        let ghost was = layers@;
        assert(layer_as_planned(was[i as int], plans[i as int]));
        proof {
            reveal(layer_as_planned);
            lemma_layers_start(plans, (i + 1) as nat, plans.len());
        }
        let loaded = layers[i].set_weights(w);
        proof {
            assert forall|j: int| 0 <= j < plans.len() implies layer_as_planned(
                #[trigger] layers@[j],
                plans[j],
            ) by {
                if j != i {
                    assert(layers@[j] == was[j]);
                }
            }
        }
        if let Err(e) = loaded {
            return Err(e);
        }
        i += 1;
    }
    Ok(())
}

impl<S: Scalar> LayerArray<S> {
    /// The parts add a bias as the list of weights has it.
    pub open spec fn standard_bias(&self) -> bool {
        &&& !self.rechannel.biased
        &&& self.rechannel.groups == 1
        &&& self.head_rechannel.groups == 1
        &&& layers_biased(self.layers@)
    }

    /// The shape of this stack.
    pub open spec fn plan(&self) -> ArrayPlan<S> {
        ArrayPlan {
            input: self.rechannel.in_ch as nat,
            channels: self.rechannel.out_ch as nat,
            layers: layer_plans(self.layers@),
            head_rows: self.head_output_size as nat,
            head_size: self.head_rechannel.out_ch as nat,
            head_kernel: self.head_rechannel.weight@.len(),
            head_dilation: self.head_rechannel.dilation as nat,
            head_bias: self.head_rechannel.biased,
        }
    }

    /// Take the weights from a list: the change of channels, the layers, the
    /// head.
    pub fn set_weights(&mut self, w: &mut Weights<S>) -> (r: Result<(), String>)
        requires
            lawful::<S>(),
            old(self).wf(),
            old(self).standard_bias(),
            old(w).wf(),
        ensures
            final(self).wf(),
            final(self).standard_bias(),
            final(self).plan() == old(self).plan(),
            final(w).wf(),
            final(w).data == old(w).data,
            r is Ok <==> old(w).pos + array_count(old(self).plan()) <= old(w).data@.len(),
            r is Ok ==> {
                &&& final(w).pos == old(w).pos + array_count(old(self).plan())
                &&& final(self).model() == array_from(
                    old(self).plan(),
                    old(w).data@,
                    old(w).pos as int,
                )
            },
            r matches Err(e) ==> e@ == underflow_text(old(w).data@.len()),
    {
        let ghost p = self.plan();
        let ghost pos = w.pos as int;
        let ghost data = w.data@;
        let ghost len = p.layers.len();
        proof {
            lemma_layers_start(p.layers, 0, len);
        }
        if let Err(e) = self.rechannel.set_weights(w) {
            return Err(e);
        }
        let ghost was = self.layers@;
        proof {
            lemma_planned(was, self.rechannel.out_ch, self.head_output_size);
        }
        let loaded = load_layers(&mut self.layers, w, Ghost(p.layers));
        proof {
            lemma_still_planned(self.layers@, was, self.rechannel.out_ch, self.head_output_size);
        }
        if let Err(e) = loaded {
            return Err(e);
        }
        let loaded = self.head_rechannel.set_weights(w);
        if let Err(e) = loaded {
            return Err(e);
        }
        assert(self.model().layers =~= array_from(p, data, pos).layers);
        Ok(())
    }
}

} // verus!
