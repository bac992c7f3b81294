# phase_engine

A path-sum engine for Clifford+T+RZ circuits, verified with Verus.

An operator on `n` qubits is held as a path sum: output rows over GF(2)
(`out_state`), a discrete phase polynomial over Z_8 and continuous parity
phases on an integer lattice of ticks. Gates rewrite the path sum, and a
reduction eliminates path variables and fixes a canonical gauge. The aim is
that equal operators get equal path sums and equal fingerprints; what is
proved of each gate rule and of the reduction is stated in their contracts,
and that aim in general is not among them.

## Layout

- `src/` — the verified library.
  - `bits`, `sorted`, `ticks`, `render`: bit masks, sorted monomial sets,
    the tick lattice and decimal rendering (with the proofs that rendered
    text can be read back).
  - `boolean_poly`, `phase_poly`, `continuous_poly`, `expansion`: the three
    polynomial kinds and the Z_8 expansion of a weighted parity.
  - `evaluator`: the path sum and its gate rules.
  - `reduction`: gauge canonicalisation and path-variable elimination.
  - `pathsum`: the shielded gate entry points, fingerprints, and the
    linear-block and phase-block resynthesis front ends.
  - `gf2`: CNOT synthesis of GF(2) matrices (Patel–Markov–Hayes with a
    Gaussian-elimination fallback).
  - `parity_network`: CX+RZ gate lists as parity networks (which parity
    each rotation acts on).
  - `combination`: how CNOT networks combine wires (linearity over GF(2)).
  - `gray`: GraySynth phase networks, proved to place every phase term once
    and to close on the target wire map.
  - `edges`: the text of a coupling graph (`u-v;u-v;...`) and its parser.
  - `routing`, `steiner`: CNOTs routed along paths by SWAP ladders (proved to
    act as the CNOT on simple paths), shortest-path tables whose next hops
    are neighbours, Steiner-tree phase blocks (whose CX ladders fold their
    wires into the block's root) and the routed linear tail, every CNOT of
    which joins two coupled wires.
  - `identities`: self-inverse gates, rotations that cancel or compose
    (`T` then `T†`, `RZ(θ)` then `T`), and the fingerprint as an equality key.
  - `replay`: a linear circuit replayed through the engine; a CX list that
    builds a block's matrix, with its `X` layer, gives back the block's rows.
  - `fresh`: the interface for sources of fresh symbols.
- `tests/` — tests on concrete values.
- `app/` — the parts that work with floating point angles, hashing
  symbol tables and the drivers that run synthesis end to end.
