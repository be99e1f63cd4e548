use vstd::prelude::*;

verus! {

/// The command-line surface: the corpus paths to analyze, how many rows a
/// static report shows, whether to skip the interactive loop, an optional
/// report output path, and optional per-dataset display names.
#[derive(Debug)]
pub struct Args {
    pub files: Vec<String>,
    pub top: usize,
    pub no_interactive: bool,
    pub output: Option<String>,
    pub names: Vec<String>,
}

impl Args {
    /// Arguments for the given corpus paths with every option at its
    /// default: twenty report rows, interactive mode, no output file, no
    /// name overrides.
    pub fn new(files: Vec<String>) -> (r: Args)
        ensures
            r.files == files,
            r.top == 20,
            !r.no_interactive,
            r.output is None,
            r.names@.len() == 0,
    {
        Args { files, top: 20, no_interactive: false, output: None, names: Vec::new() }
    }
}

} // verus!
