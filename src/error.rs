//! Errors of the synthesis pipeline.
use vstd::prelude::*;
use crate::number::Concentration;

verus! {

/// Failure of the mixer generation.
#[derive(Debug, Clone)]
pub enum MixerGenerationError {
    /// The extracted tree could not be read back.
    SaturationError(String),
    /// The initial expression for the target could not be built.
    FailedToParseTarget(Concentration),
}

/// Failure to turn a mixer expression into the flat representation.
#[derive(Debug, Clone)]
pub enum IRGenerationError {
    ParseError(String),
}

/// Failure to build the interference graph.
#[derive(Debug, Clone, Copy, PartialEq, Eq, Structural)]
pub enum InterefenceGraphGenerationError {
    /// The pass manager produced no liveness result.
    MissingLivenessAnalysis,
    /// The registers or their interferences exceed the index range of the graph.
    TooManyRegisters,
}

/// Any failure of the pipeline.
#[derive(Debug, Clone)]
pub enum FluidoError {
    MixerGenerationError(MixerGenerationError),
    IRGenerationError(IRGenerationError),
    InterferenceGraphGenerationError(InterefenceGraphGenerationError),
}

} // verus!
