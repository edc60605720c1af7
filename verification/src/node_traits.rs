use vstd::prelude::*;

use crate::node::Node;

verus! {

/// A component that is built around one node and can hand out a reference
/// to it, so that generic code can spin any component.
pub trait ComponentNode {
    /// The node this component runs on.
    fn node(&self) -> &Node;
}

} // verus!
