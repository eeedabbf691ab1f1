//! Per-file module records for a multi-file compilation, and the
//! driver's global state.  Reading files and invoking the lexer per
//! file is the surrounding program's task; these records only hold what
//! it collects.

use vstd::prelude::*;

verus! {

/// The record of one source file: its names, its source text, and what
/// later stages collect from it.
pub struct Module {
    pub name: String,
    pub filename: String,
    pub source: String,
    pub imports: Vec<String>,
    pub externs: Vec<String>,
    pub exports: Vec<String>,
    pub statements: Vec<String>,
    pub requires: Vec<Module>,
}

/// The driver: owns the global module, to which each compiled file's
/// record is attached.
pub struct Driver {
    pub global: Module,
}

impl Driver {
    /// A fresh driver whose global module is empty and carries the
    /// placeholder name.
    pub fn new() -> (r: Self)
        ensures
            r.global.name@ == "<global>"@,
            r.global.filename@ == "<global>"@,
            r.global.source@ == ""@,
            r.global.imports@.len() == 0,
            r.global.externs@.len() == 0,
            r.global.exports@.len() == 0,
            r.global.statements@.len() == 0,
            r.global.requires@.len() == 0,
    {
        Self {
            global: Module {
                name: "<global>".to_owned(),
                filename: "<global>".to_owned(),
                source: "".to_owned(),
                imports: Vec::new(),
                externs: Vec::new(),
                exports: Vec::new(),
                statements: Vec::new(),
                requires: Vec::new(),
            },
        }
    }
}

} // verus!
