//! The labeled ordered tree produced by the parser.

use vstd::prelude::*;

verus! {

/// Mathematical model of a node: a label and its children, in order.
pub struct NodeV {
    pub value: Seq<u8>,
    pub children: Seq<NodeV>,
}

/// A parsed node: a label and its children, in order.
pub struct Node {
    pub value: Vec<u8>,
    pub children: Vec<Node>,
}

impl Node {
    pub open spec fn view_rec(self) -> NodeV
        decreases self,
    {
        NodeV { value: self.value@, children: views_of(self.children@) }
    }

    /// A node with no children.
    pub fn leaf(value: Vec<u8>) -> (n: Node)
        ensures
            n@ == (NodeV { value: value@, children: Seq::empty() }),
    {
        let n = Node { value, children: Vec::new() };
        proof {
            assert(n@.children =~= Seq::<NodeV>::empty());
        }
        n
    }
}

impl View for Node {
    type V = NodeV;

    open spec fn view(&self) -> NodeV {
        self.view_rec()
    }
}

/// The views of a sequence of nodes, in order.
pub open spec fn views_of(ns: Seq<Node>) -> Seq<NodeV>
    decreases ns,
{
    if ns.len() == 0 {
        Seq::empty()
    } else {
        views_of(ns.drop_last()).push(ns.last().view_rec())
    }
}

/// `views_of` is the pointwise view.
pub proof fn lemma_views_of(ns: Seq<Node>)
    ensures
        views_of(ns).len() == ns.len(),
        forall|i: int| 0 <= i < ns.len() ==> views_of(ns)[i] == ns[i]@,
    decreases ns.len(),
{
    if ns.len() > 0 {
        lemma_views_of(ns.drop_last());
        assert forall|i: int| 0 <= i < ns.len() implies views_of(ns)[i] == ns[i]@ by {
            if i < ns.len() - 1 {
                assert(views_of(ns)[i] == views_of(ns.drop_last())[i]);
                assert(ns.drop_last()[i] == ns[i]);
            }
        }
    }
}

} // verus!
