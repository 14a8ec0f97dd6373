//! Seam carving on a pixel grid whose cells keep their identity.
//!
//! A [`matrix::Matrix`] holds the cells of an image row by row and, beside
//! each cell, the identifier it was given when the matrix was made. A seam
//! is a path of cells, one in every row or one in every column, named by the
//! places of its cells or by their identifiers ([`seam`], [`locate`]).
//!
//! The energy of a cell is the gradient of the gray values around it
//! ([`color`], [`energy`]). Seams are found on the energy field
//! ([`search`], [`extract`]), removed one at a time ([`carve`]) or several
//! together ([`batch`]), remembered ([`seam_holder`]) and put back
//! ([`insert`], [`index`]); carving a seam and putting it back undo each
//! other ([`round_trip`]). [`pipeline`] decides, cycle by cycle, which of
//! these a resize asks for. [`grid`] holds the arithmetic of rows and
//! columns that all of them share, and [`random`] the one call that chooses
//! between equally cheap seams.

pub mod batch;
pub mod carve;
pub mod color;
pub mod energy;
pub mod extract;
pub mod grid;
pub mod index;
pub mod insert;
pub mod locate;
pub mod matrix;
pub mod pipeline;
pub mod random;
pub mod round_trip;
pub mod seam;
pub mod seam_holder;
pub mod search;
