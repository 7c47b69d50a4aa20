use vstd::prelude::*;
use crate::ast::{Atom, AtomV};

verus! {

/// The mathematical form of a derivation tree: an atom and its subtrees.
pub ghost enum TreeV {
    Node(AtomV, Seq<TreeV>),
}

/// A proof: an atom, with one subtree for each premise that justified it.
/// Leaves are axioms.
#[derive(Debug)]
pub struct DerivationTree {
    pub atom: Atom,
    pub children: Vec<DerivationTree>,
}

/// The views of a sequence of trees.
pub open spec fn forest_view(ts: Seq<DerivationTree>) -> Seq<TreeV>
    decreases ts,
{
    if ts.len() == 0 {
        Seq::empty()
    } else {
        forest_view(ts.drop_last()).push(ts.last().tree_view())
    }
}

impl DerivationTree {
    /// The tree as a mathematical value.
    pub open spec fn tree_view(&self) -> TreeV
        decreases self,
    {
        TreeV::Node(self.atom@, forest_view(self.children@))
    }

    /// A tree of one node.
    pub fn new(atom: Atom) -> (r: DerivationTree)
        ensures
            r.atom == atom,
            r.children@.len() == 0,
            r.tree_view() == TreeV::Node(atom@, Seq::empty()),
    {
        DerivationTree { atom, children: Vec::new() }
    }

    /// Adds `child` as the last subtree.
    pub fn insert(&mut self, child: DerivationTree)
        ensures
            final(self).atom == old(self).atom,
            final(self).children@ == old(self).children@.push(child),
            forest_view(final(self).children@) == forest_view(old(self).children@).push(
                child.tree_view(),
            ),
    {
        let ghost cv = child.tree_view();
        self.children.push(child);
        assert(self.children@.drop_last() =~= old(self).children@);
    }
}

} // verus!
