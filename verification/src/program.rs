//! How a step of building the shader program ended.

use vstd::prelude::*;

verus! {

/// A step that the graphics interface reports a status and a log for.
#[derive(Clone, Copy, Debug, PartialEq, Eq, Structural)]
pub enum BuildStep {
    /// Compiling one shader.
    Shader,
    /// Linking the program.
    Program,
}

/// The report for a shader or program object that could not be created.
pub open spec fn spec_creation_failure() -> Seq<char> {
    "Unable to create shader object"@
}

/// The report for a step that failed and left no log.
pub open spec fn spec_unknown_failure(step: BuildStep) -> Seq<char> {
    match step {
        BuildStep::Shader => "Unknown error creating shader"@,
        BuildStep::Program => "Unknown error creating program object"@,
    }
}

/// The report for a step that failed: its log, or a fixed text where it
/// left none.
pub open spec fn spec_failure(step: BuildStep, log: Option<String>) -> Seq<char> {
    match log {
        Some(text) => text@,
        None => spec_unknown_failure(step),
    }
}

/// The report for a shader or program object that could not be created.
pub fn creation_failure() -> (r: String)
    ensures
        r@ == spec_creation_failure(),
{
    "Unable to create shader object".to_owned()
}

/// A step succeeded where its status is present and set; a status that is
/// absent or no truth value counts as a failure.
pub fn succeeded(status: Option<bool>) -> (r: bool)
    ensures
        r == (status == Some(true)),
{
    match status {
        Some(flag) => flag,
        None => false,
    }
}

/// The report for a step that failed: its log, or a fixed text where it
/// left none.
pub fn failure(step: BuildStep, log: Option<String>) -> (r: String)
    ensures
        r@ == spec_failure(step, log),
{
    match log {
        Some(text) => text,
        None => match step {
            BuildStep::Shader => "Unknown error creating shader".to_owned(),
            BuildStep::Program => "Unknown error creating program object".to_owned(),
        },
    }
}

} // verus!
