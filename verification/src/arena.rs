//! The hierarchy arena: a flat vector of nodes carrying location keys, with
//! child-index lists encoding state → subdivision → locode containment.
use vstd::prelude::*;

use crate::interner::Id;

verus! {

/// One node: its location key and the indices of its children.
#[derive(Debug)]
pub struct ArenaNode {
    pub payload: Id,
    pub children: Vec<usize>,
}

/// A flat arena of nodes with integer-id edges.
#[derive(Debug)]
pub struct Arena {
    pub nodes: Vec<ArenaNode>,
}

impl Arena {
    /// Every child index points at a node.
    pub open spec fn wf(&self) -> bool {
        forall|i: int, c: int|
            0 <= i < self.nodes@.len() && 0 <= c < self.nodes@[i].children@.len()
                ==> #[trigger] self.nodes@[i].children@[c] < self.nodes@.len()
    }

    pub fn new() -> (r: Arena)
        ensures
            r.wf(),
            r.nodes@.len() == 0,
    {
        Arena { nodes: Vec::new() }
    }

    pub fn len(&self) -> (r: usize)
        ensures
            r == self.nodes@.len(),
    {
        self.nodes.len()
    }

    /// Add a node carrying `payload`; returns its index.
    pub fn new_node(&mut self, payload: Id) -> (r: usize)
        requires
            old(self).wf(),
        ensures
            final(self).wf(),
            r == old(self).nodes@.len(),
            final(self).nodes@.len() == old(self).nodes@.len() + 1,
            final(self).nodes@[r as int].payload == payload,
            final(self).nodes@[r as int].children@.len() == 0,
            forall|i: int|
                0 <= i < old(self).nodes@.len() ==> final(self).nodes@[i] == old(self).nodes@[i],
    {
        let r = self.nodes.len();
        self.nodes.push(ArenaNode { payload, children: Vec::new() });
        r
    }

    /// Make `child` a child of `parent`.
    pub fn append(&mut self, parent: usize, child: usize)
        requires
            old(self).wf(),
            parent < old(self).nodes@.len(),
            child < old(self).nodes@.len(),
        ensures
            final(self).wf(),
            final(self).nodes@.len() == old(self).nodes@.len(),
            forall|i: int|
                0 <= i < old(self).nodes@.len() && i != parent ==> final(self).nodes@[i] == old(
                    self,
                ).nodes@[i],
            final(self).nodes@[parent as int].payload == old(self).nodes@[parent as int].payload,
            final(self).nodes@[parent as int].children@ == old(
                self,
            ).nodes@[parent as int].children@.push(child),
    {
        let ghost pre = self.nodes@;
        let mut node = self.nodes.remove(parent);
        node.children.push(child);
        self.nodes.insert(parent, node);
        proof {
            assert forall|i: int| 0 <= i < pre.len() && i != parent implies self.nodes@[i]
                == pre[i] by {
                if i < parent {
                    assert(self.nodes@[i] == pre.remove(parent as int)[i]);
                } else {
                    assert(self.nodes@[i] == pre.remove(parent as int)[i - 1]);
                }
            }
        }
    }
}

} // verus!
