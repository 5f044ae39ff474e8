//! Error categories.
//!
//! `InputError` covers structural problems in the description: unknown
//! names, misshapen entries, type conflicts, unsatisfied recipes.  No
//! partial design survives one.  `AnalyzeError` arises only after a
//! structurally valid design was built: a missing normalization anchor or
//! a system without a unique solution.  The two never overlap, so a
//! caller can tell a bad description from one with no steady state.

use vstd::prelude::*;

verus! {

/// A structural error in the input description.
#[derive(Clone, Copy, PartialEq, Eq, Structural, Debug)]
pub enum InputError {
    /// A resource name that the catalog does not know.
    UnknownResource,
    /// A building name that the catalog does not know.
    UnknownBuilding,
    /// A recipe name that the catalog does not know.
    UnknownRecipe,
    /// A module name that the catalog does not know.
    UnknownModule,
    /// A line name reused with a different resource type.
    TypeMismatch,
    /// A boundary line name with children of its own.
    UnexpectedInputChild,
    /// A boundary output line name with children of its own.
    UnexpectedOutputChild,
    /// A unit declaration with no recipe under it.
    MissingRecipe,
    /// A unit input entry that does not name exactly one line.
    InputLineCount,
    /// A unit output entry that does not name exactly one line.
    OutputLineCount,
    /// An input declared that the recipe does not (or no longer) requires.
    InvalidRecipeInput,
    /// An output declared that the recipe does not (or no longer)
    /// requires.
    InvalidRecipeOutput,
    /// A module count that is not a well-formed 16-bit integer, or a
    /// module entry with more than one child.
    InvalidModuleCount,
    /// A required recipe input left unsatisfied.
    UnfilledInputs,
    /// A required recipe output left unsatisfied.
    UnfilledOutputs,
    /// The shared index counter reached the machine limit.
    CapacityExceeded,
    /// A label in the tree is not valid UTF-8 text.
    DecodeFailure,
}

impl InputError {
    /// A human-readable message.
    pub fn message(&self) -> &'static str {
        match *self {
            InputError::UnknownResource => "Unknown resource",
            InputError::UnknownBuilding => "Unknown building",
            InputError::UnknownRecipe => "Unknown recipe",
            InputError::UnknownModule => "Unknown module",
            InputError::TypeMismatch => "Resource type mismatch",
            InputError::UnexpectedInputChild => "Unexpected child of input line name",
            InputError::UnexpectedOutputChild => "Unexpected child of output line name",
            InputError::MissingRecipe => "Found building with no recipe",
            InputError::InputLineCount => "Only single line per input is supported.",
            InputError::OutputLineCount => "Only single line per output is supported.",
            InputError::InvalidRecipeInput => "Invalid recipe input",
            InputError::InvalidRecipeOutput => "Invalid recipe output",
            InputError::InvalidModuleCount => "Invalid module count",
            InputError::UnfilledInputs => "Not all inputs are filled",
            InputError::UnfilledOutputs => "Not all outputs are filled",
            InputError::CapacityExceeded => "Too many lines and units",
            InputError::DecodeFailure => "Unicode error",
        }
    }
}

/// An analysis error: the design was structurally valid, but no unique
/// steady state could be computed.
#[derive(Clone, Copy, PartialEq, Eq, Structural, Debug)]
pub enum AnalyzeError {
    /// No normalization anchor: the design declares no output line.
    NoNormalization,
    /// A unit's effective crafting speed or processing time is zero, so
    /// its rates are undefined.
    ZeroRate,
    /// The assembled system is not square.
    NonSquare,
    /// The assembled system is singular.
    Singular,
    /// An exact coefficient grew past the machine range.
    Overflow,
}

impl AnalyzeError {
    /// A human-readable message.
    pub fn message(&self) -> &'static str {
        match *self {
            AnalyzeError::NoNormalization => "No normalized variable set",
            AnalyzeError::ZeroRate => "Error solving system: zero effective rate",
            AnalyzeError::NonSquare => "Error solving system: not square",
            AnalyzeError::Singular => "Error solving system: singular",
            AnalyzeError::Overflow => "Error solving system: coefficient overflow",
        }
    }
}

} // verus!
