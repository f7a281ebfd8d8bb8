use vstd::prelude::*;

verus! {

/// One task occurrence recorded in the log.
#[derive(Debug, Clone)]
pub struct Node {
    pub task: String,
    pub output: String,
    pub parent: Option<usize>,
    pub children: Vec<usize>,
    pub flags: Vec<String>,
}

/// The mathematical content of a `Node`.
pub struct NodeView {
    pub task: Seq<char>,
    pub output: Seq<char>,
    pub parent: Option<usize>,
    pub children: Seq<usize>,
    pub flags: Seq<Seq<char>>,
}

pub open spec fn strings_view(v: Seq<String>) -> Seq<Seq<char>> {
    v.map_values(|s: String| s@)
}

impl View for Node {
    type V = NodeView;

    open spec fn view(&self) -> NodeView {
        NodeView {
            task: self.task@,
            output: self.output@,
            parent: self.parent,
            children: self.children@,
            flags: strings_view(self.flags@),
        }
    }
}

/// The views of a sequence of nodes, position by position.
pub open spec fn nodes_view(nodes: Seq<Node>) -> Seq<NodeView> {
    nodes.map_values(|n: Node| n@)
}

impl Node {
    /// A copy of the node with the same content.
    pub fn duplicate(&self) -> (r: Node)
        ensures
            r@ == self@,
    {
        let flags = self.flags.clone();
        proof {
            assert(strings_view(flags@) =~= strings_view(self.flags@));
        }
        let children = self.children.clone();
        assert(children@ =~= self.children@);
        Node {
            task: self.task.clone(),
            output: self.output.clone(),
            parent: self.parent,
            children,
            flags,
        }
    }
}

} // verus!
