# describe

Describers for a media file, verified with Verus: `clips` reads the picture
into one 512-d vector per shot, `sounds` reads the audio into labels, one cue
per label and window, and `embed` puts a row's or a prompt's text into the same
512-d space.

- `src/` is the library: what each describer decides. Which frames stand for a
  shot and where a shot ends, how a picture becomes the tower's input, which
  samples of overlapping windows leave and when a label is news, how a prompt
  becomes tokens, and what is made of a graph's answer. Every function states
  what it returns, and Verus proves it. The functions named `law_..` state what
  holds across calls.
- `app/` runs the library: graphs, JSON rows, and the arithmetic on floats,
  which the library takes as functions.
- `tests/` runs the library on given values.

Floats are not looked into: they travel as bit patterns or as values of any
type, and the arithmetic on them is handed in. `fourier` shows what its
transform computes wherever that arithmetic is exact.

The tokenizer's `tokenizer.json` is handed in too. `document` tests that it is
laid out as CLIP's own before the `tokenizers` crate builds anything of it, and
a tokenizer without `<|startoftext|>` and `<|endoftext|>` around every text is
refused.
