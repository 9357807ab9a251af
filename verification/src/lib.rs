//! Cellular automata on one- and two-dimensional lattices, with connected
//! component labelling of the live pattern.
//!
//! A [`grid::Grid`] is a lattice of cell states. A [`tca2d::TCA2D`] advances
//! a lattice generation by generation under a totalistic or an
//! outer-totalistic rule; an [`eca::ECA`] does so for one row under an
//! elementary rule. The regions of a lattice are labelled by
//! [`grid::Grid::get_connected_components`].

pub mod boundary;
pub mod compass_direction;
pub mod components;
pub mod disjoint_sets;
pub mod eca;
pub mod error;
pub mod generation;
pub mod grid;
pub mod numbering;
pub mod pixels;
pub mod region_laws;
pub mod regions;
pub mod seed;
pub mod tca2d;
pub mod text;
