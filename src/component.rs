use vstd::prelude::*;
use crate::node::NodeProto;
use crate::node::GodsnodeType;
use crate::node::fresh_node;
use crate::node::meta_view;

verus! {

/// A node carried by a rendered entity.
pub struct Godspoint {
    pub node: NodeProto,
}

impl Default for Godspoint {
    /// A point holding a blank node.
    fn default() -> (r: Self)
        ensures
            r.node@ == fresh_node(0, Seq::empty(), Seq::empty(), GodsnodeType::Node),
            meta_view(r.node).len() == 0,
    {
        Godspoint { node: NodeProto::blank() }
    }
}

} // verus!
