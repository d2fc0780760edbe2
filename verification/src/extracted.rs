//! Stage 1 inputs extracted from a proof, as they are exchanged in JSON.

use vstd::prelude::*;

verus! {

/// The program's IO description absorbed by the transcript before Stage 1.
#[derive(Clone, Debug)]
pub struct PreambleData {
    pub max_input_size: u64,
    pub max_output_size: u64,
    pub memory_size: u64,
    pub inputs: Vec<u8>,
    pub outputs: Vec<u8>,
    pub panic: bool,
    pub ram_k: usize,
    pub trace_length: usize,
}

/// The Stage 1 verification inputs of a proof.
#[derive(Clone, Debug)]
pub struct Stage1ExtractedData {
    /// The preamble, when the IO device was available.
    pub preamble: Option<PreambleData>,
    /// Coefficients of the univariate-skip first-round polynomial, in decimal.
    pub uni_skip_poly_coeffs: Vec<String>,
    /// Coefficients of each sumcheck round polynomial, in decimal.
    pub sumcheck_round_polys: Vec<Vec<String>>,
    pub num_rounds: usize,
    pub trace_length: usize,
    /// Serialized commitments, absorbed in the preamble.
    pub commitments: Vec<Vec<u8>>,
    pub num_commitments: usize,
    /// The final claim computed by the concrete verifier, in decimal.
    pub expected_final_claim: String,
}

} // verus!
