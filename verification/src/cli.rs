use vstd::prelude::*;

verus! {

/// The run parameters a command surface hands the library: the source
/// image location, an optional output location, and the numeric knobs of
/// the optimizer.
#[derive(Clone, Debug)]
pub struct Cli {
    pub image_path: String,
    pub output: Option<String>,
    pub nodes: usize,
    pub max_lines: usize,
    pub colors: usize,
}

} // verus!
