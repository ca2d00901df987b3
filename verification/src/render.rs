//! The text of a resolved tree: each instance with the instances it was given, as a
//! generic type is written.

use vstd::prelude::*;
use vstd::string::StringExecFns;
use crate::resolver::{lemma_node_view, nodes_view, ResolvedNode, ResolvedNodeView};

verus! {

/// The text of a node: its identifier, and, where it has children, their texts
/// between `<` and `>`.
pub open spec fn rendered(node: ResolvedNodeView) -> Seq<char>
    decreases node,
{
    if node.children.len() == 0 {
        node.concrete_id
    } else {
        node.concrete_id + "<"@ + rendered_list(node.children) + ">"@
    }
}

/// The texts of a list of nodes, with a comma and a blank between one and the next.
pub open spec fn rendered_list(nodes: Seq<ResolvedNodeView>) -> Seq<char>
    decreases nodes,
{
    if nodes.len() == 0 {
        Seq::empty()
    } else if nodes.len() == 1 {
        rendered(nodes[0])
    } else {
        rendered_list(nodes.drop_last()) + ", "@ + rendered(nodes.last())
    }
}

/// The text of a component with its tree: the component's name, and the texts of
/// the nodes between `<` and `>`.
pub open spec fn rendered_component(name: Seq<char>, tree: Seq<ResolvedNodeView>) -> Seq<char> {
    name + "<"@ + rendered_list(tree) + ">"@
}

/// Appends the texts of `nodes`, with a comma and a blank between one and the next.
fn append_all(out: &mut String, nodes: &Vec<ResolvedNode>)
    ensures
        final(out)@ == old(out)@ + rendered_list(nodes_view(nodes@)),
    decreases nodes, 0nat,
{
    let ghost all = nodes_view(nodes@);
    let mut i: usize = 0;
    while i < nodes.len()
        invariant
            i <= nodes.len(),
            all == nodes_view(nodes@),
            out@ == old(out)@ + rendered_list(all.take(i as int)),
        decreases nodes.len() - i,
    {
        proof {
            assert(all.take(i + 1).drop_last() =~= all.take(i as int));
        }
        if i > 0 {
            out.append(", ");
        }
        let text = nodes[i].render();
        out.append(text.as_str());
        i = i + 1;
    }
    assert(all.take(nodes.len() as int) =~= all);
}

impl ResolvedNode {
    /// The text of the node.
    pub fn render(&self) -> (out: String)
        ensures
            out@ == rendered(self@),
        decreases self, 1nat,
    {
        let mut out = self.concrete_id.clone();
        proof {
            lemma_node_view(*self);
        }
        if self.children.len() > 0 {
            out.append("<");
            append_all(&mut out, &self.children);
            out.append(">");
        }
        out
    }
}

/// The text of a component with its tree.
pub fn render_component(name: &str, tree: &Vec<ResolvedNode>) -> (out: String)
    ensures
        out@ == rendered_component(name@, nodes_view(tree@)),
{
    let mut out = name.to_owned();
    out.append("<");
    append_all(&mut out, tree);
    out.append(">");
    out
}

} // verus!
