# neural_amp_modeler

Inference for Neural Amp Modeler (`.nam`) models of guitar amplifiers and
pedals. What the engine computes is stated in contracts and proved with Verus.

- `src/` is the verified library. `src/pure/` holds the engine: convolutional
  networks (`WaveNet`) with gating, modulation, projections, nested condition
  networks and selectable sizes, recurrent networks (`LSTM`), and containers of
  models (`SlimmableContainer`). `src/json.rs` reads model files with
  `serde_json`. `src/laws/` states what holds of the library as a whole.
- `app/` adds floating point numbers, files and timing.
- `tests/` runs the library on whole models and on small parts.

The library computes with any number type that has the operations of
`num::Scalar`; `app/number.rs` has single and double precision.

## What is proved

Each function's contract says what it returns: the exact output for every block
of samples, in the operations of the number type and in their order, or the
exact complaint about a file that cannot be loaded.

Beyond that, `src/laws/` proves among other things that

- block boundaries and buffer sizes do not show in the output (`streams`),
  for all activations but lists of slopes that do not divide the channels;
- a convolutional network forgets what lies further back than its reach
  (`memory`), so a reset brings it to rest (`resets`);
- a reduced network is a slice of the full one (`slices`), its weights are some
  of all weights in their order (`kept`), every size of a loaded model can be
  built (`sizes`), and it runs where the full one does (`running`);
- only sizes at which the stacks fit each other can be built (`tight`), and a
  model is refused for its sizes only where a ratio selects one that cannot be
  built (`refused`);
- a larger ratio selects no fewer channels, the last selection counts, full size
  is the default and the way back, and the numbers of channels to read and to
  write never change (`selection`);
- a convolution in blocks is the weighted sum over the whole signal
  (`convolutions`);
- a model loads only if it reads every weight of its file (`loading`);
- a network that ignores its condition does not show what makes the condition
  (`conditions`);
- activations that are odd, or do not depend on the place in the buffer, and
  samples that lose nothing on the way through the number type (`numbers`);
- a model whose activations have values everywhere takes all samples (`values`).
