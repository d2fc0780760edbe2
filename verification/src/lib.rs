//! Verified core of the Jolt-to-gnark transpiler: size classes, the symbolic
//! expression arena, BN254 scalar constants, transcripts that record hashes as
//! arena nodes, and Go/gnark code generation.

pub mod assertion_debug;
pub mod ast_curve;
pub mod ast_evaluator;
pub mod blake2b;
pub mod bundle;
pub mod circuit;
pub mod bytes;
pub mod codegen;
pub mod constants;
pub mod curve;
pub mod dag;
pub mod extracted;
pub mod fields;
pub mod fragments;
pub mod gnark_blindfold_transcript;
pub mod gnark_codegen;
pub mod go_semantics;
pub mod mle_ast;
pub mod names;
pub mod poseidon;
pub mod scalar;
pub mod size_class;
pub mod sorted;
pub mod symbolize;
pub mod text;
pub mod zk_fiat_shamir;
