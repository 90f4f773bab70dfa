//! Rendering of a decision tree as a directed-graph description: one line per
//! node declaration and per edge, in pre-order. The tree's arena is laid out
//! in pre-order, so each node is named by its pre-order index.
use vstd::prelude::*;
use vstd::string::*;
use crate::numeral::{decimal, format_decimal};

verus! {

/// A node of a decision tree. A split sends a record whose feature value is at
/// most the threshold to `when_true` and any other to `when_false`; both are
/// indices into the tree's arena.
pub enum TreeNode {
    Leaf { class: usize },
    Split { feature: usize, threshold: String, when_true: usize, when_false: usize },
}

/// A decision tree held as an arena of nodes in pre-order: the root is node
/// 0, the true branch of a split at `i` starts at `i + 1`, and its false
/// branch starts right after the true branch's last node. A node's index is
/// thus its pre-order index, and every node of the arena belongs to the tree
/// exactly once.
pub struct DecisionTree {
    pub nodes: Vec<TreeNode>,
}

/// Why a tree cannot be rendered.
#[derive(Debug, Clone, Copy, PartialEq, Eq, Structural)]
pub enum GraphError {
    /// The tree has no node.
    Empty,
    /// The arena is not a tree in pre-order at `node`: a branch of the split
    /// there does not start where pre-order puts it, or `node` is a slot
    /// after the root's subtree that no split reaches.
    Malformed { node: usize },
    /// The split at `node` tests feature `feature`, which has no name: the
    /// tree and the feature names do not belong together.
    FeatureOutOfRange { node: usize, feature: usize },
}

/// The walk of the subtree at node `i` in pre-order, given `f` feature
/// names: the index just after its last node, or the first fault met, where
/// a split's own faults are met before those of its branches.
pub open spec fn walk(nodes: Seq<TreeNode>, f: nat, i: int) -> Result<int, GraphError>
    decreases nodes.len() - i,
{
    if !(0 <= i < nodes.len()) {
        Err(GraphError::Malformed { node: i as usize })
    } else {
        match nodes[i] {
            TreeNode::Leaf { .. } => Ok(i + 1),
            TreeNode::Split { feature, when_true, when_false, .. } => {
                if when_true != i + 1 || when_true >= nodes.len() {
                    Err(GraphError::Malformed { node: i as usize })
                } else if feature >= f {
                    Err(GraphError::FeatureOutOfRange { node: i as usize, feature })
                } else {
                    match walk(nodes, f, i + 1) {
                        Err(e) => Err(e),
                        Ok(end) => {
                            if when_false != end || when_false >= nodes.len() || when_false <= i {
                                Err(GraphError::Malformed { node: i as usize })
                            } else {
                                walk(nodes, f, when_false as int)
                            }
                        },
                    }
                }
            },
        }
    }
}

/// The outcome of checking a whole arena: empty, the first fault of the walk
/// from the root, a slot left over after the root's subtree, or sound.
pub open spec fn tree_check(nodes: Seq<TreeNode>, f: nat) -> Result<(), GraphError> {
    if nodes.len() == 0 {
        Err(GraphError::Empty)
    } else {
        match walk(nodes, f, 0) {
            Err(e) => Err(e),
            Ok(end) => {
                if end == nodes.len() {
                    Ok(())
                } else {
                    Err(GraphError::Malformed { node: end as usize })
                }
            },
        }
    }
}

/// The declaration of a leaf.
pub open spec fn leaf_line(id: nat, class: nat) -> Seq<char> {
    "    "@ + decimal(id) + " [label=\""@ + decimal(class) + "\"];"@
}

/// The declaration of a split.
pub open spec fn split_line(id: nat, name: Seq<char>, threshold: Seq<char>) -> Seq<char> {
    "    "@ + decimal(id) + " [label=\"Feature "@ + name + " <= "@ + threshold + "\"];"@
}

/// An edge from one node to another, labelled with the branch it stands for.
pub open spec fn edge_line(from: nat, to: nat, branch: Seq<char>) -> Seq<char> {
    "    "@ + decimal(from) + " -> "@ + decimal(to) + " [label=\""@ + branch + "\"];"@
}

/// The lines of the subtree at node `i`, in pre-order: the node's
/// declaration, for a split its two edges, then the lines of the true branch
/// and of the false branch.
pub open spec fn node_lines(nodes: Seq<TreeNode>, names: Seq<String>, i: int) -> Seq<Seq<char>>
    decreases nodes.len() - i,
{
    if !(0 <= i < nodes.len()) {
        seq![]
    } else {
        match nodes[i] {
            TreeNode::Leaf { class } => seq![leaf_line(i as nat, class as nat)],
            TreeNode::Split { feature, threshold, when_true, when_false } => {
                if i < when_true < nodes.len() && i < when_false < nodes.len() {
                    seq![
                        split_line(i as nat, names[feature as int]@, threshold@),
                        edge_line(i as nat, when_true as nat, "true"@),
                        edge_line(i as nat, when_false as nat, "false"@),
                    ] + node_lines(nodes, names, when_true as int) + node_lines(
                        nodes,
                        names,
                        when_false as int,
                    )
                } else {
                    seq![]
                }
            },
        }
    }
}

/// The lines that open the graph.
pub open spec fn header_lines() -> Seq<Seq<char>> {
    seq![
        "digraph decision_tree {"@,
        "    layout = sfdp;"@,
        "    concentrate = true;"@,
        "    ratio = 0.5;"@,
    ]
}

/// The line that closes the graph.
pub open spec fn footer_lines() -> Seq<Seq<char>> {
    seq!["}"@]
}

/// The texts of a sequence of lines.
pub open spec fn lines_view(lines: Seq<String>) -> Seq<Seq<char>> {
    lines.map_values(|s: String| s@)
}

/// The whole graph description of a sound tree.
pub open spec fn graph_lines(nodes: Seq<TreeNode>, names: Seq<String>) -> Seq<Seq<char>> {
    header_lines() + node_lines(nodes, names, 0) + footer_lines()
}

/// Appends a line to the output.
fn push_line(out: &mut Vec<String>, line: String)
    ensures
        lines_view(final(out)@) == lines_view(old(out)@).push(line@),
{
    let ghost before = out@;
    out.push(line);
    assert(lines_view(out@) =~= lines_view(before).push(line@));
}

/// Appends the lines of the subtree at node `i`.
fn emit_node(nodes: &Vec<TreeNode>, names: &Vec<String>, i: usize, out: &mut Vec<String>)
    requires
        walk(nodes@, names@.len(), i as int) is Ok,
        i < nodes@.len(),
    ensures
        lines_view(final(out)@) == lines_view(old(out)@) + node_lines(nodes@, names@, i as int),
    decreases nodes@.len() - i,
{
    let ghost start = lines_view(out@);
    match &nodes[i] {
        TreeNode::Leaf { class } => {
            let mut line = String::from_str("    ");
            line.append(format_decimal(i).as_str());
            line.append(" [label=\"");
            line.append(format_decimal(*class).as_str());
            line.append("\"];");
            push_line(out, line);
            assert(lines_view(out@) =~= start + node_lines(nodes@, names@, i as int));
        },
        TreeNode::Split { feature, threshold, when_true, when_false } => {
            let id = format_decimal(i);
            let mut line = String::from_str("    ");
            line.append(id.as_str());
            line.append(" [label=\"Feature ");
            line.append(names[*feature].as_str());
            line.append(" <= ");
            line.append(threshold.as_str());
            line.append("\"];");
            push_line(out, line);
            let mut yes = String::from_str("    ");
            yes.append(id.as_str());
            yes.append(" -> ");
            yes.append(format_decimal(*when_true).as_str());
            yes.append(" [label=\"");
            yes.append("true");
            yes.append("\"];");
            push_line(out, yes);
            let mut no = String::from_str("    ");
            no.append(id.as_str());
            no.append(" -> ");
            no.append(format_decimal(*when_false).as_str());
            no.append(" [label=\"");
            no.append("false");
            no.append("\"];");
            push_line(out, no);
            emit_node(nodes, names, *when_true, out);
            emit_node(nodes, names, *when_false, out);
            assert(lines_view(out@) =~= start + node_lines(nodes@, names@, i as int));
        },
    }
}

/// The walk of the subtree at node `i`, as `walk` states it.
fn walk_subtree(nodes: &Vec<TreeNode>, f: usize, i: usize) -> (r: Result<usize, GraphError>)
    requires
        i < nodes@.len(),
    ensures
        r matches Ok(end) ==> walk(nodes@, f as nat, i as int) == Ok::<int, GraphError>(end as int),
        r matches Err(e) ==> walk(nodes@, f as nat, i as int) == Err::<int, GraphError>(e),
        r matches Ok(end) ==> i < end <= nodes@.len(),
    decreases nodes@.len() - i,
{
    let n = nodes.len();
    assert(i + 1 <= n);
    match &nodes[i] {
        TreeNode::Leaf { .. } => Ok(i + 1),
        TreeNode::Split { feature, when_true, when_false, .. } => {
            if *when_true != i + 1 || *when_true >= nodes.len() {
                return Err(GraphError::Malformed { node: i });
            }
            if *feature >= f {
                return Err(GraphError::FeatureOutOfRange { node: i, feature: *feature });
            }
            match walk_subtree(nodes, f, i + 1) {
                Err(e) => Err(e),
                Ok(end) => {
                    if *when_false != end || *when_false >= nodes.len() || *when_false <= i {
                        Err(GraphError::Malformed { node: i })
                    } else {
                        walk_subtree(nodes, f, *when_false)
                    }
                },
            }
        },
    }
}

impl DecisionTree {
    /// The graph description of the tree: the opening lines, the lines of
    /// every node from the root in pre-order, and the closing line.
    pub fn export(&self, feature_names: &Vec<String>) -> (r: Result<Vec<String>, GraphError>)
        ensures
            r is Ok <==> tree_check(self.nodes@, feature_names@.len()) is Ok,
            r matches Err(e) ==> tree_check(self.nodes@, feature_names@.len()) == Err::<
                (),
                GraphError,
            >(e),
            r matches Ok(lines) ==> lines_view(lines@) == graph_lines(
                self.nodes@,
                feature_names@,
            ),
    {
        if self.nodes.len() == 0 {
            return Err(GraphError::Empty);
        }
        match walk_subtree(&self.nodes, feature_names.len(), 0) {
            Err(e) => {
                return Err(e);
            },
            Ok(end) => {
                if end != self.nodes.len() {
                    return Err(GraphError::Malformed { node: end });
                }
            },
        }
        let mut out: Vec<String> = Vec::new();
        push_line(&mut out, String::from_str("digraph decision_tree {"));
        push_line(&mut out, String::from_str("    layout = sfdp;"));
        push_line(&mut out, String::from_str("    concentrate = true;"));
        push_line(&mut out, String::from_str("    ratio = 0.5;"));
        emit_node(&self.nodes, feature_names, 0, &mut out);
        push_line(&mut out, String::from_str("}"));
        assert(lines_view(out@) =~= graph_lines(self.nodes@, feature_names@));
        Ok(out)
    }
}

/// The ids that the lines of the subtree at node `i` declare, in the order of
/// their declaration lines.
pub open spec fn declared_ids(nodes: Seq<TreeNode>, i: int) -> Seq<int>
    decreases nodes.len() - i,
{
    if !(0 <= i < nodes.len()) {
        seq![]
    } else {
        match nodes[i] {
            TreeNode::Leaf { .. } => seq![i],
            TreeNode::Split { when_true, when_false, .. } => {
                if i < when_true < nodes.len() && i < when_false < nodes.len() {
                    seq![i] + declared_ids(nodes, when_true as int) + declared_ids(
                        nodes,
                        when_false as int,
                    )
                } else {
                    seq![]
                }
            },
        }
    }
}

/// In a sound subtree the declared ids are the pre-order indices `i`, `i + 1`,
/// ... up to the subtree's end: each node is declared once, under its
/// pre-order index.
pub proof fn lemma_ids_are_preorder(nodes: Seq<TreeNode>, f: nat, i: int)
    requires
        walk(nodes, f, i) is Ok,
    ensures
        i < walk(nodes, f, i)->Ok_0 <= nodes.len(),
        declared_ids(nodes, i) == Seq::new((walk(nodes, f, i)->Ok_0 - i) as nat, |k: int| i + k),
    decreases nodes.len() - i,
{
    match nodes[i] {
        TreeNode::Leaf { .. } => {
            assert(declared_ids(nodes, i) =~= Seq::new(1, |k: int| i + k));
        },
        TreeNode::Split { when_true, when_false, .. } => {
            lemma_ids_are_preorder(nodes, f, i + 1);
            lemma_ids_are_preorder(nodes, f, when_false as int);
            let mid = walk(nodes, f, i + 1)->Ok_0;
            let end = walk(nodes, f, i)->Ok_0;
            assert(when_true == i + 1 && when_false == mid);
            assert(end == walk(nodes, f, mid)->Ok_0);
            let a = declared_ids(nodes, i + 1);
            let b = declared_ids(nodes, mid);
            assert(declared_ids(nodes, i) == seq![i] + a + b);
            assert(a.len() == mid - i - 1 && b.len() == end - mid);
            assert forall|k: int| 0 <= k < end - i implies #[trigger] (seq![i] + a + b)[k] == i + k by {
                if k == 0 {
                } else if k < mid - i {
                    assert(a[k - 1] == i + 1 + (k - 1));
                } else {
                    assert(b[k - (mid - i)] == mid + (k - (mid - i)));
                }
            }
            assert(declared_ids(nodes, i) =~= Seq::new((end - i) as nat, |k: int| i + k));
        },
    }
}

/// A sound tree declares its nodes `0 .. n` in order, one line each.
pub proof fn lemma_tree_ids_are_preorder(nodes: Seq<TreeNode>, f: nat)
    requires
        tree_check(nodes, f) is Ok,
    ensures
        declared_ids(nodes, 0) == Seq::new(nodes.len(), |k: int| k),
{
    lemma_ids_are_preorder(nodes, f, 0);
    assert(declared_ids(nodes, 0) =~= Seq::new(nodes.len(), |k: int| k));
}

/// A tree of a single leaf renders as one node declaration and no edge,
/// between the opening and the closing lines.
pub proof fn lemma_single_leaf_graph(class: usize, names: Seq<String>)
    ensures
        graph_lines(seq![TreeNode::Leaf { class }], names) == header_lines() + seq![
            leaf_line(0, class as nat),
        ] + footer_lines(),
{
    let nodes = seq![TreeNode::Leaf { class }];
    assert(node_lines(nodes, names, 0) == seq![leaf_line(0, class as nat)]);
}

} // verus!
