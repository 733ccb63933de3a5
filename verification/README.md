# ds4

Inference engine for the DeepSeek V4 Flash model, with its logic verified in
Verus.

## Layout

* `src/` is the verified library: the model file parser, the weight binder, the
  tokenizer, sessions and generation, the integer kernels of the quantized
  formats, and the conversions between floating-point formats, which are handled
  as their bits.
* `tests/` runs the library on concrete values.
* `app/` is the program around it: command line, files, terminal, the
  floating-point kernels of the graph, and the CUDA launches.

## What is proved

Every public function states in its contract what it returns. Properties that
relate several functions are public `lemma_` functions next to them, for example
that a model file that was laid out reads back as written
(`gguf::layout::lemma_file_round_trip`), that tokenizing loses nothing
(`tokenizer::lemma_encode_round_trip`), or that a half-precision number survives
widening and narrowing (`half::lemma_half_round_trip`).

What is not proved but taken from other crates is in a few places: the lookup
tables of the tokenizer (`tokenizer::maps`, on `ahash` and `indexmap`), the
reinterpretation of bytes as words (`weights`, on `bytemuck`), the seed of the
sampler (`sampler`, on `rand_xoshiro`), and the check for UTF-8
(`gguf::reader`, on the standard library).

The order in which a session reports its progress and calls its backend is stated
over a record of both, which `timeline` keeps.
