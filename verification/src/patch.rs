//! The patch table: the directed edges of the rack's signal graph.
//!
//! A patch leads from one module's output port to another module's input
//! or knob port; one output may fan out to many destinations, and the
//! same destination may be fed by several patches. The table is a set of
//! edges: inserting an existing edge changes nothing.

use vstd::prelude::*;

use crate::key::ModuleKey;

verus! {

/// One directed edge from an output port to an input or knob port.
#[derive(Clone, Copy, Debug, PartialEq, Eq, Structural)]
pub struct Patch {
    pub src: ModuleKey,
    pub dst: ModuleKey,
}

/// All patches of one rack, viewed as the sequence of its edges.
#[derive(Clone, Debug)]
pub struct Patches {
    edges: Vec<Patch>,
}

impl View for Patches {
    type V = Seq<Patch>;

    closed spec fn view(&self) -> Seq<Patch> {
        self.edges@
    }
}

impl Patches {
    /// An empty table.
    pub fn new() -> (r: Patches)
        ensures
            r@ =~= Seq::<Patch>::empty(),
    {
        Patches { edges: Vec::new() }
    }

    /// Number of edges.
    pub fn len(&self) -> (n: usize)
        ensures
            n == self@.len(),
    {
        self.edges.len()
    }

    /// The edge at position `i`.
    pub fn get(&self, i: usize) -> (p: Patch)
        requires
            i < self@.len(),
        ensures
            p == self@[i as int],
    {
        self.edges[i]
    }

    /// Whether the edge from `src` to `dst` is in the table.
    pub fn contains_edge(&self, src: ModuleKey, dst: ModuleKey) -> (r: bool)
        ensures
            r == self@.contains(Patch { src, dst }),
    {
        let n = self.edges.len();
        let mut i: usize = 0;
        while i < n
            invariant
                n == self.edges@.len(),
                0 <= i <= n,
                forall|j: int| 0 <= j < i ==> self.edges@[j] != (Patch { src, dst }),
            decreases n - i,
        {
            let e = self.edges[i];
            if e.src == src && e.dst == dst {
                assert(self.edges@[i as int] == (Patch { src, dst }));
                return true;
            }
            i = i + 1;
        }
        false
    }

    /// Add the edge from `src` to `dst`; an edge already present stays
    /// single.
    pub fn insert(&mut self, src: ModuleKey, dst: ModuleKey)
        ensures
            final(self)@ =~= if old(self)@.contains(Patch { src, dst }) {
                old(self)@
            } else {
                old(self)@.push(Patch { src, dst })
            },
    {
        if !self.contains_edge(src, dst) {
            self.edges.push(Patch { src, dst });
        }
    }
}

/// Marker attached by a renderer to the on-screen representation of a
/// patch cable; carries no data of its own.
#[derive(Clone, Debug)]
pub struct PatchComponent;

} // verus!
