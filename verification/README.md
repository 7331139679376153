# gnfs

Building blocks of the General Number Field Sieve and of the NFS discrete-log descent, written
in Verus: every function in `src/` carries a contract that Verus proves.

- `src/filter`: the sparse GF(2) relation matrix: building it from relations, singleton
  removal (exactly the singleton core survives), clique pruning (the heaviest rows go first,
  down to the excess floor; a matrix already below the floor is left as it is, since pruning
  only removes rows), column merging (its result partitions the input rows into groups, each
  output row the GF(2) sum of its group); every step keeps each row the GF(2) sum of the
  relations its provenance names.
- `src/linalg`: bit-packed block vectors, the matrix as an operator (`apply` and
  `apply_transpose` are adjoint over GF(2)), kernel vectors and their
  expansion to relation sets, block Lanczos and scalar Wiedemann (Berlekamp-Massey returns a
  shortest generating register, by Massey's lemma; `f(B) y` is the sum of the Krylov
  vectors), quadratic characters (norms and polynomial values modulo `q`, complete
  splitting, Legendre parities, setting the character columns).
- `src/sieve`: the rational norm `a - b m` over signed integers of any size, factor-base
  lookups, exponent vectors, relation rows, the special-q lattice
  and its Gauss reduction (reduced, same lattice, same determinant up to sign; every basis
  whose squared lengths fit an `i64`, a tie counting as reduced).
- `src/dl`: the descent tree and frontier, initialization-smoothing (trial division over the
  primes up to a bound), the choice of rewriting relations (children are always smaller
  primes), the descent step decisions, the assembly of the target's log from the
  factor-base logs, the virtual-log table, the discrete-log matrix layout and the extension
  factor base and relations, and the arithmetic of the target field `F_p[u]/(m(u))`
  (sum, product reduced by the monic modulus, square-and-multiply power, Frobenius, with
  commutativity, distributivity and unit laws proved). Big integers are `LogResidue` digit
  vectors; their addition,
  multiplication, subtraction, remainder, quotient and comparison are num-bigint's.
- `src/polyselect`: rotation schedules, configurations and the base-m digit expansion.
- `app/`: what stays outside the proofs: floating-point estimates and the descent loop
  around a caller-supplied sieve.
- `tests/`: tests of the library through its public interface.

## What is not here

- The sieves themselves (line sieve, lattice sieve for a special q), the base-m and
  Coppersmith polynomial selection and the Murphy/Dickman estimates work with floating-point
  logarithms, and the trial division of norms in the original goes through number-theory
  crates that are not available here; only their integer helpers are in `src/`, and the
  Dickman function is in `app/`.
- The F_ell linear algebra (block Lanczos and Wiedemann over a prime field), the Schirokauer
  maps, the extension-field (`k = 2`) solver and the `solve_dl` entry points rest on
  prime-field and big-integer crates that are not available here.
- Quadratic-character parities are set into the matrix by `set_qc_columns`; computing them
  from the relations needs `a` and `b` modulo each character prime, and relation
  coordinates are signed num-bigint values that the library does not read.
