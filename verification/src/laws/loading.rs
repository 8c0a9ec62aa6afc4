//! What loading a model promises.

use crate::json::Tree;
use crate::num::Scalar;
use crate::pure::dsp_config::{recurrent_of, wavenet_of};
use crate::pure::lstm::{lstm_count, lstm_sizes};
use crate::pure::model::{bytes_of, text_of};
use crate::pure::net_build::net_count;
use crate::pure::net_config::{parts_of, weights_of};
use crate::pure::slim_config::slimmable_of;
use vstd::prelude::*;
use vstd::utf8::{encode_utf8, encode_utf8_decode_utf8, encode_utf8_valid_utf8};

verus! {

/// The bytes of a text say what the text says.
pub proof fn bytes_say_what_text_says<S: Scalar>(json: Seq<char>)
    ensures
        bytes_of::<S>(encode_utf8(json)) == text_of::<S>(json),
{
    encode_utf8_valid_utf8(json);
    encode_utf8_decode_utf8(json);
}

/// A network loads only if it reads every weight of its file, and no more.
pub proof fn networks_read_every_weight<S: Scalar>(value: Tree, config: Tree)
    requires
        wavenet_of::<S>(value, config) is Ok,
        slimmable_of(config) == Ok::<bool, Seq<char>>(false),
    ensures
        weights_of::<S>(value) is Ok,
        parts_of::<S>(config) is Ok,
        weights_of::<S>(value)->Ok_0.len() == net_count(
            parts_of::<S>(config)->Ok_0.arrays,
            parts_of::<S>(config)->Ok_0.head,
        ),
{
}

/// A network that can be reduced loads only if it reads every weight of its
/// file at full size, and no more.
pub proof fn slim_networks_read_every_weight<S: Scalar>(value: Tree, config: Tree)
    requires
        wavenet_of::<S>(value, config) is Ok,
        slimmable_of(config) == Ok::<bool, Seq<char>>(true),
    ensures
        wavenet_of::<S>(value, config)->Ok_0 is Slim,
        ({
            let m = wavenet_of::<S>(value, config)->Ok_0->Slim_0;
            &&& m.weights == weights_of::<S>(value)->Ok_0
            &&& m.weights.len() == net_count(m.arrays, None)
        }),
{
}

/// A recurrent network loads only if it reads every weight of its file, and no
/// more.
pub proof fn recurrent_networks_read_every_weight<S: Scalar>(value: Tree, config: Tree)
    requires
        recurrent_of::<S>(value, config) is Ok,
    ensures
        weights_of::<S>(value) is Ok,
        lstm_sizes(config) is Ok,
        weights_of::<S>(value)->Ok_0.len() == lstm_count(lstm_sizes(config)->Ok_0),
{
}

} // verus!
