# hidalgo

Economic-complexity kernels on a country x product specialization matrix,
with the integer part of the pipeline verified by Verus.

- `src/` is the verified library:
  - `matrix`: a row-major matrix of any element type, with integer
    matrix-vector products and row/column selection;
  - `complexity`: diversity and ubiquity, the countries and products kept
    for ECI and PCI, whether complexity is defined at all, and the restricted
    matrices handed to the eigenvector step;
  - `proximity`: product proximity as exact fractions (co-export count over
    the larger ubiquity), with its symmetry, unit diagonal, zero rows and
    bound proved;
  - `parallel`: the one trusted item, a rayon-backed parallel map over
    indices;
  - `bundle_from_m` in `lib.rs`: support and proximity of a specialization
    matrix (0/1 in use; whole-number weights whose sums fit in a `u64` are
    accepted too).
- `app/` is the Python extension (PyO3 + numpy) and the floating-point
  stages: RCA, binarization, the deflated power iteration for the second
  eigenvector, z-scores and sign rules, and density.
- `tests/` runs the library on small hand-checked matrices.
