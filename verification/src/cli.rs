//! The command line's options, as the program hands them to the library.
use vstd::prelude::*;

use std::path::PathBuf;

verus! {

/// When diagnostics are colored.
#[derive(Debug, Clone, Copy, PartialEq, Eq, Structural)]
pub enum ColorMode {
    Auto,
    Always,
    Never,
}

/// The options of one run: the Markdown input, the PPTX output, an optional
/// style file, the color mode of diagnostics, and whether warnings are kept quiet.
#[derive(Debug)]
pub struct Args {
    pub input: PathBuf,
    pub output: PathBuf,
    pub style: Option<PathBuf>,
    pub color: ColorMode,
    pub quiet: bool,
}

} // verus!
