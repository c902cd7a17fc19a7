# lab4

Determinants of integer matrices by cofactor expansion, verified with Verus.

- `src/matrix.rs`: minors (`select_minor`), the determinant expanded along the
  first column (`calculate_determinant`), slices of the expansion along the
  first row (`calculate_slice`), and checked variants that report where these
  would fail.
- `src/laplace.rs`: the proof that both expansions agree, so that slices of
  row 0 computed apart add up to the determinant.
- `src/det_laws.rs`: transposing keeps the determinant; exchanging two rows
  negates it.
- `src/bounds.rs`: entries within `b` and `n! * b^n` within `i64` keep every
  step of the expansion within `i64`.
- `src/sums.rs`: finite sums and the algebra the proofs use.
- `src/text.rs`: the text format of a matrix (`parse_matrix`), and the proof
  that a matrix written as text reads back unchanged.
- `src/shm_word.rs`: the 8-byte word through which workers share results.
- `src/protocol.rs`: what forked workers hand to their children and how they
  fold results back, what the whole tree of workers sends or adds, and what a
  thread over a chain of minors reports.
- `app/main.rs`: the forked workers themselves (sockets, shared memory, IPC
  channels) and a demonstration.
