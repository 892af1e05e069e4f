//! A genotype-to-phenotype development engine for genetic programming:
//! a catalog of templates, genomes of template instances, the expression of
//! a genome into a phenotype graph by nearest-neighbour matching, and the
//! genetic operators that evolve genomes.
pub mod blueprints;
pub mod chromosome;
pub mod component;
pub mod expression;
pub mod nearest;
pub mod operators;
pub mod sampler;
pub mod vectors;

pub use expression::{express, Binding, ComponentIndex, Edge, Expressed, Phenotype};
