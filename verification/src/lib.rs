//! Index, layout and decision logic of convolution interpolation on uniform grids: boundary
//! conditions, the extension of the data by ghost values, the location of a point's stencil,
//! the checks of derivative orders, the flat layout of N-D coefficient arrays and the regions
//! of N-D integrals.
mod text;
pub mod coefficients;
pub mod stencil;
pub mod orders;
pub mod layout;
pub mod regions;
