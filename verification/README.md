# bigram_stats

Word and bigram statistics for a Polish legal corpus, as a verified Verus
library with a small command-line driver.

- `src/preprocess.rs`: lower-casing the corpus and blanking punctuation; the
  file name of a corpus path.
- `src/bigrams.rs`: decoding a pickled `{(w1, w2): count}` dictionary
  (through `serde_pickle`) into bigram entries, and the total of their counts.
- `src/pmi.rs`, `src/positional.rs`: word counts (over both places of a
  bigram, or by place) and the integer terms of pointwise mutual information.
- `src/llr.rs`: the 2x2 contingency table behind a bigram's log-likelihood
  ratio.
- `src/tag.rs`: parsing the tagger's answer into tagged bigrams, counting
  repeated bigrams, merging counters, choosing the documents still to tag.
- `src/utils.rs`, `src/bigram_key.rs`: the bigram counter (pairs plus a hash
  map from an escaped text key), and its conversions to and from pairs.
- `app/`: file, network and thread handling, the floating-point PMI and LLR,
  sorting by float, JSON decoding, and the command line.

Every function under `src/` is verified; the few calls into `regex`, `serde_pickle` and into
`char`/`String` methods of the standard library go through small trusted
wrappers whose contracts are stated next to them.
