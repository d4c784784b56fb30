pub mod bounds;
pub mod coverage;
pub mod find;
pub mod knn;
pub mod nearest;
pub mod nearest_k;
pub mod ordering;
pub mod point;
pub mod sorted;
pub mod worklist;

use vstd::prelude::*;
use crate::geom::CalcMethod;
use crate::model::{Entry, NodeView};

verus! {

/// The number of children at which a node is subdivided, unless told
/// otherwise.
pub const DEFAULT_MAX_CHILDREN: usize = 4;

/// The depth below which no node is subdivided, unless told otherwise.
pub const DEFAULT_MAX_DEPTH: u8 = 4;

/// A tree as a value: the root, the count of features, and the geometry
/// for distances.
pub struct TreeView<D> {
    pub root: NodeView<D>,
    pub size: usize,
    pub calc_method: CalcMethod,
}

impl<D> TreeView<D> {
    /// The root is a well-formed node at depth 0, and `size` counts what
    /// the tree holds.
    pub open spec fn wf(self) -> bool {
        &&& self.root.wf()
        &&& self.root.depth == 0
        &&& self.size == self.root.items().len()
    }

    /// An empty tree.
    pub open spec fn empty(
        bounds: crate::geom::rect::Rect,
        calc_method: CalcMethod,
        max_depth: u8,
        max_children: usize,
    ) -> Self {
        TreeView {
            root: NodeView::leaf(bounds, 0, max_depth, max_children),
            size: 0,
            calc_method,
        }
    }

    /// The tree with one more feature.
    pub open spec fn with_entry(self, e: Entry<D>) -> Self {
        TreeView { root: self.root.inserted(e), size: (self.size + 1) as usize, ..self }
    }
}

/// The data of a sequence of features.
pub open spec fn datums<D>(es: Seq<Entry<D>>) -> Seq<D> {
    Seq::new(es.len(), |i: int| es[i].datum)
}

/// A reference to the datum of each feature.
pub fn data_of<'a, D>(es: Vec<&'a Entry<D>>) -> (out: Vec<&'a D>)
    ensures
        crate::tree_node::targets(out@) == datums(crate::tree_node::targets(es@)),
{
    let mut out: Vec<&'a D> = Vec::new();
    let mut k: usize = 0;
    while k < es.len()
        invariant
            k <= es@.len(),
            out@.len() == k,
            forall|j: int| 0 <= j < k ==> *(#[trigger] out@[j]) == es@[j].datum,
        decreases es@.len() - k,
    {
        let e: &'a Entry<D> = es[k];
        out.push(&e.datum);
        k += 1;
    }
    assert(crate::tree_node::targets(out@) =~= datums(crate::tree_node::targets(es@)));
    out
}

} // verus!
