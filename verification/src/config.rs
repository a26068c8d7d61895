//! One project's configuration, as plain values: every path is a list
//! of components relative to the place the caller resolved it against.
//! The caller parses its configuration file into this form.

use vstd::prelude::*;

verus! {

/// Configuration of one project to document.
pub struct Config {
    /// Name of the project.
    pub project_name: String,
    /// Components of the project root directory's path.
    pub project_path: Vec<String>,
    /// Components of the output file's path.
    pub output_file: Vec<String>,
    /// Files to include, each relative to the project root.
    pub files: Vec<Vec<String>>,
    /// Directories to include recursively, each relative to the root.
    pub directories: Vec<Vec<String>>,
    /// Raw exclusion patterns, applied to every directory of the walk.
    pub exclude_directories: Vec<String>,
}

} // verus!
