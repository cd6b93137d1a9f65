//! The options of the command that scaffolds a project.

use std::path::PathBuf;
use vstd::prelude::*;

verus! {

/// Declares `std::path::PathBuf`, so that the options can hold a path.
/// Nothing is said of what a path holds: it is carried as it is given.
#[verifier::external_type_specification]
#[verifier::external_body]
pub struct ExPathBuf(std::path::PathBuf);

/// What the scaffold command is given.
#[derive(Clone, Debug)]
pub struct ScaffoldCommandOptions {
    /// Where the template of the project is.
    pub from_template: Option<String>,
    /// Whether the project serves remote calls.
    pub with_grpc: bool,
    /// The name of the project.
    pub name: Option<String>,
    /// Where the project is written to.
    pub output_path: Option<PathBuf>,
}

impl Default for ScaffoldCommandOptions {
    /// Nothing is given, and the project serves remote calls.
    fn default() -> (options: Self)
        ensures
            options.from_template is None,
            options.with_grpc,
            options.name is None,
            options.output_path is None,
    {
        ScaffoldCommandOptions {
            from_template: None,
            with_grpc: true,
            name: None,
            output_path: None,
        }
    }
}

} // verus!
