# ceno

Pieces of a zero-knowledge virtual machine over the Goldilocks field, verified with Verus.

* `field`, `ring`, `prime`: the Goldilocks field and its quadratic extension. The arithmetic of the
  base field is that of `p3-goldilocks`.
* `mle`, `mle_build`, `multilinear`, `virtual_poly`, `virtual_polynomial`: multilinear polynomials,
  the equality polynomial, and sums of products of polynomials.
* `expression`: polynomial expressions over columns and challenges, their arithmetic, evaluation,
  normal form and text.
* `witness`, `dense`: matrices of witnesses and their padding, over the matrix of `p3-matrix`.
* `circuit`, `instructions`, `riscv`: circuits of RISC-V instructions. The circuits of the divisions
  and of set-less-than are proved to accept exactly what the machine computes.
* `tables`: lookup tables, the program table and tables of memory.
* `tower`, `scheme`: towers of products and fractions, and the rounds of the prover around them.
* `gkr`: layered circuits, rotations of columns, the zero check of a layer and what it sums up to,
  the claims that are handed from layer to layer, and that the verifier accepts an honest layer.
* `precompiles`: a circuit of the Keccak permutation on bits, and a circuit of its rounds on bytes
  with lookups. All rows of the byte circuit have the same constraints, so it adds the first round
  constant in every round: what it proves are 24 rounds with that one constant, which is not the
  permutation itself.

`app/` is an ordinary program around the library: it draws random states, runs the circuits, and
connects the library to a transcript, a sum check and a commitment scheme through traits.
