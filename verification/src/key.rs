//! Addressing of modules and their ports.
//!
//! A [`ModuleKey`] names either a whole module (port [`ModuleIOK::None`]) or
//! one of its ports: an input, an output, or a knob. Keys double as patch
//! endpoints and as the keys of the per-tick output cache.

use vstd::prelude::*;

verus! {

/// Which port of a module a key refers to, if any.
#[derive(Clone, Copy, Debug, PartialEq, Eq, Structural)]
pub enum ModuleIOK {
    /// No port: the key names the module as a whole.
    Whole,
    /// Input port with the given index.
    Input(usize),
    /// Output port with the given index.
    Output(usize),
    /// Knob (parameter) port with the given index.
    Knob(usize),
}

impl ModuleIOK {
    pub fn is_none(&self) -> (r: bool)
        ensures
            r == (self is Whole),
    {
        matches!(self, ModuleIOK::Whole)
    }

    pub fn is_input(&self) -> (r: bool)
        ensures
            r == (self is Input),
    {
        matches!(self, ModuleIOK::Input(_))
    }

    pub fn is_output(&self) -> (r: bool)
        ensures
            r == (self is Output),
    {
        matches!(self, ModuleIOK::Output(_))
    }

    pub fn is_knob(&self) -> (r: bool)
        ensures
            r == (self is Knob),
    {
        matches!(self, ModuleIOK::Knob(_))
    }
}

/// A module id together with an optional port on that module.
#[derive(Clone, Copy, Debug, PartialEq, Eq, Structural)]
pub struct ModuleKey {
    pub id: usize,
    pub iok: ModuleIOK,
}

impl ModuleKey {
    /// The key of output `index` of module `id`.
    pub fn output(id: usize, index: usize) -> (r: ModuleKey)
        ensures
            r == (ModuleKey { id, iok: ModuleIOK::Output(index) }),
    {
        ModuleKey { id, iok: ModuleIOK::Output(index) }
    }

    /// The key of input `index` of module `id`.
    pub fn input(id: usize, index: usize) -> (r: ModuleKey)
        ensures
            r == (ModuleKey { id, iok: ModuleIOK::Input(index) }),
    {
        ModuleKey { id, iok: ModuleIOK::Input(index) }
    }

    /// The key of knob `index` of module `id`.
    pub fn knob(id: usize, index: usize) -> (r: ModuleKey)
        ensures
            r == (ModuleKey { id, iok: ModuleIOK::Knob(index) }),
    {
        ModuleKey { id, iok: ModuleIOK::Knob(index) }
    }
}

} // verus!
