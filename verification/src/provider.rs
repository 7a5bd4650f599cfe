//! Sources of modules.
use vstd::prelude::*;

use crate::ast::{ModuleAst, SpecModule};
use crate::procedure::{ProcId, ProcedureId};
use crate::semantics::Catalogue;

verus! {

/// A module together with the path under which it is known.
pub struct NamedModuleAst<'a> {
    path: &'a str,
    module: &'a ModuleAst,
}

impl<'a> View for NamedModuleAst<'a> {
    type V = SpecModule;

    closed spec fn view(&self) -> SpecModule {
        SpecModule { path: self.path@, procs: self.module@ }
    }
}

impl<'a> NamedModuleAst<'a> {
    /// Returns the module under the given path.
    pub fn new(path: &'a str, module: &'a ModuleAst) -> (r: NamedModuleAst<'a>)
        ensures
            r@ == (SpecModule { path: path@, procs: module@ }),
    {
        NamedModuleAst { path, module }
    }

    /// Returns the path of this module.
    pub fn path(&self) -> (r: &'a str)
        ensures
            r@ == self@.path,
    {
        self.path
    }

    /// Returns this module without its path.
    pub fn module(&self) -> (r: &'a ModuleAst)
        ensures
            r@ == self@.procs,
    {
        self.module
    }
}

/// A source of modules for an assembler.
pub trait ModuleProvider {
    /// The modules which this provider serves: none, unless the provider says otherwise.
    open spec fn catalogue(&self) -> Catalogue {
        Catalogue { lookup: |id: ProcId| None, paths: Set::empty() }
    }

    /// Returns the source text of the module at the given path.
    fn get_source(&self, path: &str) -> Option<&str>;

    /// Returns the module which holds the procedure with the given identifier.
    fn get_module(&self, id: &ProcedureId) -> (r: Option<NamedModuleAst<'_>>)
        ensures
            r matches Some(module) ==> (self.catalogue().lookup)(id@) == Some(module@),
            r is None ==> (self.catalogue().lookup)(id@) is None,
    ;
}

impl ModuleProvider for () {
    /// Returns nothing: there are no modules.
    fn get_source(&self, path: &str) -> (r: Option<&str>)
        ensures
            r is None,
    {
        None
    }

    /// Returns nothing: there are no modules.
    fn get_module(&self, id: &ProcedureId) -> (r: Option<NamedModuleAst<'_>>) {
        None
    }
}

} // verus!
