use vstd::prelude::*;

use crate::compiler::CompilerError;
use crate::vm::VmError;

verus! {

/// The name of a program file that could not be read.
#[derive(Debug)]
pub struct FileErrorPackage {
    pub filename: String,
}

/// Everything that can stop a run, from the command line to the machine.
#[derive(Debug)]
pub enum HabanoError {
    ArgumentError,
    CannotOpenFile(FileErrorPackage),
    HabanoCompilerError(Vec<CompilerError>),
    HabanoVmError(VmError),
}

} // verus!
