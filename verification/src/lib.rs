//! Determinants of integer matrices by cofactor expansion, the minors that the
//! expansion works on, the text format that matrices are read from, and the
//! word format in which the forked workers exchange partial results.
pub mod sums;
pub mod matrix;
pub mod laplace;
pub mod shm_word;
pub mod text;
pub mod protocol;
pub mod det_laws;
pub mod bounds;
