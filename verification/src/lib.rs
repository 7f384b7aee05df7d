pub mod array_2d;
pub mod array_3d;
pub mod atoms;
pub mod binary;
pub mod cluster;
pub mod const_latice;
pub mod counter;
pub mod energy;
pub mod fast_array;
pub mod frame;
pub mod lattice;
pub mod modular_array;
pub mod modular_grid;
pub mod num_atom;
pub mod pairs;
pub mod product;
pub mod regions;
pub mod rng;
pub mod stats;
pub mod sums;
pub mod system;
pub mod ternary;
pub mod torus;
pub mod trinary;
pub mod weights;

pub use array_2d::Array2d;
pub use array_3d::Array3d;
pub use atoms::{BinAtom, BinConcentration, Mark, RandAtom};
pub use binary::BinAtoms;
pub use cluster::{disentangle, ClusterDistribution, ClusterStats};
pub use const_latice::ArrayLatice;
pub use counter::ClusterCounter;
pub use energy::Energies;
pub use fast_array::FastArray;
pub use frame::{flatten, Frame, GifFrame};
pub use lattice::{Lattice, Storage};
pub use modular_array::ModularArray;
pub use modular_grid::ModularGrid;
pub use num_atom::{NumAtom, NumC};
pub use rng::{new_rng, MyRng};
pub use stats::StreamingStats;
pub use system::System;
pub use ternary::{TerAtoms, TerConcentration};
pub use trinary::TriAtoms;
