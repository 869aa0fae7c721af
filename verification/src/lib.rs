//! Strided vector primitives in the style of the Level-1 BLAS: a strided copy
//! and a strided plane rotation over caller-supplied one-dimensional buffers.
//!
//! A *vector view* is a buffer together with a logical element count `n` and a
//! signed stride `inc`. Module [`stride`] holds the addressing rules shared by
//! every operation, [`copy`] the strided copy, and [`rot`] the pairwise walk
//! that a plane rotation is an instance of.

pub mod copy;
pub mod rot;
pub mod stride;
