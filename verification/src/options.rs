//! The command line of the pipeline, and what adding a corpus does.

use vstd::prelude::*;
use crate::pipeline::VectorGenerationType;

verus! {

/// The arguments of the pipeline.
pub struct Args {
    /// Path to the config file.
    pub config: String,
    pub cmd: Command,
}

/// What the pipeline is asked to do.
pub enum Command {
    /// Add a corpus to Strix.
    Add(Add),
    /// Delete a corpus from the instance.
    Delete(Delete),
    /// Generate the vector data of a corpus.
    GenerateVectorData(GenerateVectorData),
}

/// Adding a corpus.
pub struct Add {
    /// The corpus to add.
    pub corpus: String,
    /// Whether a previous version of the corpus is deleted.
    pub delete_previous_versions: bool,
    /// Where the document vectors are generated, if they are.
    pub vector_generation_type: Option<VectorGeneration>,
}

/// Deleting a corpus.
pub struct Delete {
    /// The corpus to delete.
    pub corpus: String,
}

/// Generating the vector data of a corpus.
pub struct GenerateVectorData {
    /// The corpus to update.
    pub corpus: String,
    /// Where the document vectors are generated.
    pub vector_generation_type: VectorGeneration,
}

/// Options every command shares.
pub struct Common {
    /// Path to the config file.
    pub config: String,
}

/// Where the document vectors are generated, as the command line names it.
pub enum VectorGeneration {
    Remote,
    Local,
}

/// The pipeline failed.
pub enum AppError {
    Failure,
    WithMsg(String),
}

/// The kind of vector generation a command-line choice names.
pub open spec fn domain_of(v: VectorGeneration) -> VectorGenerationType {
    match v {
        VectorGeneration::Local => VectorGenerationType::Local,
        VectorGeneration::Remote => VectorGenerationType::Remote,
    }
}

impl VectorGeneration {
    /// The kind of vector generation this choice names (`domain_of`).
    pub fn as_domain(&self) -> (r: VectorGenerationType)
        ensures
            r == domain_of(*self),
    {
        match self {
            VectorGeneration::Local => VectorGenerationType::Local,
            VectorGeneration::Remote => VectorGenerationType::Remote,
        }
    }
}

/// What adding a corpus does once its configuration is converted.
pub enum AddStep {
    /// Generate the vectors, in this way.
    GenerateVectors(VectorGenerationType),
    /// Require that the vectors were generated before.
    CheckVectors,
}

impl Add {
    /// Vectors are generated where a way is chosen; otherwise they must
    /// exist already.
    pub fn next_step(&self) -> (r: AddStep)
        ensures
            match self.vector_generation_type {
                Some(v) => r == AddStep::GenerateVectors(domain_of(v)),
                None => r == AddStep::CheckVectors,
            },
    {
        match &self.vector_generation_type {
            Some(v) => AddStep::GenerateVectors(v.as_domain()),
            None => AddStep::CheckVectors,
        }
    }
}

/// What is reported when a corpus is added without vectors.
pub open spec fn vectors_missing_message() -> Seq<char> {
    "You must generate vectors first or use --vector-generation-type local/remote"@
}

/// The outcome of adding a corpus without generating vectors: it fails
/// exactly where no vectors exist.
pub fn vectors_checked(exist: bool) -> (r: Result<(), AppError>)
    ensures
        r is Ok <==> exist,
        r matches Err(e) ==> e matches AppError::WithMsg(m) && m@ == vectors_missing_message(),
{
    if exist {
        Ok(())
    } else {
        Err(AppError::WithMsg(String::from_str("You must generate vectors first or use --vector-generation-type local/remote")))
    }
}

} // verus!
