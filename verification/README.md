# Pattern classifier

Classifies streaming JSON messages. Each message is encoded as a sparse ternary
hypervector, compared with what its subject has shown so far, and reported as
normal or anomalous with ranked hypotheses; doubtful results are put before a
person.

- `src/` is the library, verified with Verus. Numbers are IEEE 754 single-precision
  bit patterns with verified arithmetic. Handling a message is a run that asks for
  store accesses, exponentials, JSON texts and publications, and goes on with the
  answers.
- `tests/` compares the arithmetic with the machine's and runs whole streams
  against a store in memory.
- `app/` is the wasmCloud component around the library.

Hypervector operations come from `embeddenator-vsa`, stored records from
`embeddenator-io`, JSON parsing from `serde_json`; the functions that call them
say in their contracts what is taken on trust.
