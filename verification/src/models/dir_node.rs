use vstd::prelude::*;

verus! {

/// A node in the scanned directory tree.
pub struct DirNode {
    pub name: String,
    /// The directory's path, as displayed.
    pub path: String,
    /// Total size in bytes of everything below this directory.
    pub size: u64,
    pub children: Vec<DirNode>,
}

/// The mathematical value of a [`DirNode`].
pub struct DirNodeView {
    pub name: Seq<char>,
    pub path: Seq<char>,
    pub size: u64,
    pub children: Seq<DirNodeView>,
}

/// The views of a sequence of nodes, in order.
pub open spec fn views(nodes: Seq<DirNode>) -> Seq<DirNodeView>
    decreases nodes,
{
    if nodes.len() == 0 {
        Seq::empty()
    } else {
        views(nodes.subrange(0, nodes.len() - 1)).push(node_view(nodes[nodes.len() - 1]))
    }
}

/// The view of one node.
pub open spec fn node_view(node: DirNode) -> DirNodeView
    decreases node,
{
    DirNodeView {
        name: node.name@,
        path: node.path@,
        size: node.size,
        children: views(node.children@),
    }
}

/// `views` maps each node to its view, position by position.
pub proof fn lemma_views(nodes: Seq<DirNode>)
    ensures
        views(nodes).len() == nodes.len(),
        forall|i: int| 0 <= i < nodes.len() ==> #[trigger] views(nodes)[i] == node_view(nodes[i]),
    decreases nodes.len(),
{
    if nodes.len() > 0 {
        let init = nodes.subrange(0, nodes.len() - 1);
        lemma_views(init);
        assert forall|i: int| 0 <= i < nodes.len() implies #[trigger] views(nodes)[i] == node_view(nodes[i]) by {
            if i < nodes.len() - 1 {
                assert(init[i] == nodes[i]);
            }
        }
    }
}

/// Two node sequences with the same views position by position have equal views.
pub proof fn lemma_views_ext(a: Seq<DirNode>, b: Seq<DirNodeView>)
    requires
        a.len() == b.len(),
        forall|i: int| 0 <= i < a.len() ==> node_view(#[trigger] a[i]) == b[i],
    ensures
        views(a) == b,
{
    lemma_views(a);
    assert(views(a) =~= b);
}

impl View for DirNode {
    type V = DirNodeView;

    open spec fn view(&self) -> DirNodeView {
        node_view(*self)
    }
}

} // verus!
