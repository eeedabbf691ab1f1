//! The skeleton of the eventual abstract syntax tree: placeholders that
//! the later compilation stages fill in.

use vstd::prelude::*;

verus! {

/// A named module of the eventual syntax tree.
pub struct Module {
    pub name: String,
    pub items: Vec<()>,
}

/// The syntax tree under construction: empty until a later stage
/// attaches a root module.
pub struct Tree {
    pub root: Option<Module>,
}

impl Tree {
    /// An empty tree.
    pub fn new() -> (r: Self)
        ensures
            r.root is None,
    {
        Self { root: None }
    }
}

} // verus!
