//! One-dimensional cutting-stock optimisation by an evolutionary search.
//!
//! Lengths are integers in working units. Demand pieces live in a catalog and
//! are identified by their index there; bins hold copies of the pieces they
//! carry. Fitness is fixed point: `FITNESS_SCALE` stands for a perfect score.
pub mod optimizer;
pub mod packing;
pub mod population;
pub mod random;
pub mod unit;
