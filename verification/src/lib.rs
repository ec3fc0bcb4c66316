//! A library for building rank-1 constraint systems (R1CS) over prime fields, as used in SNARKs
//! and other argument systems.

pub mod natural;
pub mod field;
pub mod wire;
pub mod expression;
pub mod wire_values;
pub mod binary_expression;
pub mod constraint;
pub mod witness_generator;
pub mod gadget;
pub mod gadget_builder;
pub mod field_arithmetic;
pub mod boolean_algebra;
pub mod splitting;
pub mod chunk_order;
pub mod comparisons;
pub mod bitwise_operations;
pub mod binary_arithmetic;
pub mod permutation_network;
pub mod sorting;
pub mod random_access;
pub mod lcg;
pub mod trie;
pub mod gadget_traits;
pub mod permutations;
pub mod random;
pub mod mimc;
pub mod davies_meyer;
pub mod miyaguchi_preneel;
pub mod merkle_damgard;
pub mod merkle_trees;
pub mod matrices;
pub mod poseidon;
pub mod curve;
pub mod jubjub;
pub mod mir;
pub mod small_fields;
pub mod encoding;
pub mod primes;
pub mod fermat;
