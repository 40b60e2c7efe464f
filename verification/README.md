# convinterp

High-order convolution interpolation on uniform grids in any number of dimensions, with
derivatives and integrals, as a Python extension module.

- `src/` is the verified library (Verus): the boundary conditions and the stencil half-width of
  a kernel; the choice of the extrapolation rule at each boundary, the values it reads and where
  the ghost values go; the location of a point's stencil; the checks of derivative orders; the
  C-order layout of N-D coefficient arrays and the padding of kernel tables; the regions of N-D
  integrals and the memory their tails take. Each public function states what it returns in its
  contract; the laws that span functions are public proof functions.
- `app/` is the Python extension (PyO3 and NumPy) and the floating-point numerics: ghost values,
  kernel weights, integral tails and the evaluators. It calls the library for every index,
  layout and decision above. It expects the generated kernel tables as the module `kernels`
  (`app/kernels.rs`), which is produced from the kernel definitions and is not kept in these
  sources.
- `tests/` runs the library on concrete values.
