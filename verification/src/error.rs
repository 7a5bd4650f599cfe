//! Errors of the assembler.
use vstd::prelude::*;

use crate::procedure::{ProcId, ProcedureId};

verus! {

/// Model of an error.
pub enum SpecError {
    InvalidSource,
    ProcExportInProgram(Seq<char>),
    DuplicateProcName(Seq<char>),
    UndefinedLocalProc(u16),
    UndefinedImportedProc(ProcId),
    UndefinedKernelProc(Seq<char>),
    CircularModuleDependency(Seq<char>),
    CallInKernel(ProcId),
}

/// The reason for which a source could not be assembled.
#[derive(Debug)]
pub enum AssemblerError {
    /// The source is not a program, or not a module.
    InvalidSource,
    /// A program exports the procedure with the given name.
    ProcExportInProgram(String),
    /// A module has two procedures with the given name.
    DuplicateProcName(String),
    /// An instruction names a procedure of its module which is not there.
    UndefinedLocalProc(u16),
    /// An instruction names a procedure for which there is no module.
    UndefinedImportedProc(ProcedureId),
    /// An instruction names a kernel procedure which is not there.
    UndefinedKernelProc(String),
    /// The module at the given path depends on itself.
    CircularModuleDependency(String),
    /// Code of a kernel calls the given procedure rather than executing it in place.
    CallInKernel(ProcedureId),
}

impl View for AssemblerError {
    type V = SpecError;

    open spec fn view(&self) -> SpecError {
        match *self {
            AssemblerError::InvalidSource => SpecError::InvalidSource,
            AssemblerError::ProcExportInProgram(name) => SpecError::ProcExportInProgram(name@),
            AssemblerError::DuplicateProcName(name) => SpecError::DuplicateProcName(name@),
            AssemblerError::UndefinedLocalProc(index) => SpecError::UndefinedLocalProc(index),
            AssemblerError::UndefinedImportedProc(id) => SpecError::UndefinedImportedProc(id@),
            AssemblerError::UndefinedKernelProc(name) => SpecError::UndefinedKernelProc(name@),
            AssemblerError::CircularModuleDependency(path) => SpecError::CircularModuleDependency(
                path@,
            ),
            AssemblerError::CallInKernel(id) => SpecError::CallInKernel(id@),
        }
    }
}

impl AssemblerError {
    /// Returns the error for a program which exports a procedure.
    pub fn proc_export_in_program(name: &str) -> (r: AssemblerError)
        ensures
            r@ == SpecError::ProcExportInProgram(name@),
    {
        AssemblerError::ProcExportInProgram(name.to_owned())
    }

    /// Returns the error for an imported procedure without a module.
    pub fn undefined_imported_proc(id: &ProcedureId) -> (r: AssemblerError)
        ensures
            r@ == SpecError::UndefinedImportedProc(id@),
    {
        AssemblerError::UndefinedImportedProc(id.clone())
    }
}

} // verus!
