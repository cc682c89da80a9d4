# codecs

Channel codes and entropy codes for byte strings, verified with Verus.

- `repetition`: every bit sent three times, decoded by majority.
- `parity_check`: a parity byte appended to the input.
- `hamming`: the Hamming [7,4] code on the bits of a byte string;
  `hamming_code` codes text with it, the coded bytes written as decimal
  numbers separated by spaces.
- `huffman`, `shannon_fano`, `arithmetic`: entropy coders that store the
  symbol counts (or the cumulative model) after the coded bits, in the frame
  of `frame`.

Each coder has a specification of what it returns (`spec_encode`,
`spec_decode`), a precondition naming the inputs on which the coder works
without panicking, and a proved law saying that decoding what was coded
gives the input back (`lemma_roundtrip`, with the exceptions each states).
`bits` and `le` hold the contracts of the calls into the `bit-vec` and
`byteorder` crates.

`app/` holds the C entry points over the coders and a small program that
codes a text with the Hamming code.
