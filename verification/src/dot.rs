use vstd::prelude::*;
use crate::text::{decimal, usize_to_decimal};

verus! {

/// The characters that Graphviz record labels need escaped.
pub open spec fn needs_escape(c: char) -> bool {
    c == '{' || c == '}' || c == '<' || c == '>' || c == '"'
}

/// `s` with a backslash before each character that needs escaping.
pub open spec fn escaped(s: Seq<char>) -> Seq<char>
    decreases s.len(),
{
    if s.len() == 0 {
        Seq::empty()
    } else {
        let r = escaped(s.drop_last());
        if needs_escape(s.last()) {
            r + seq!['\\', s.last()]
        } else {
            r.push(s.last())
        }
    }
}

/// Escapes the characters `{`, `}`, `<`, `>` and `"` with a backslash.
pub fn escaped_string(s: String) -> (res: String)
    ensures
        res@ == escaped(s@),
{
    let src = s.as_str();
    let n = src.unicode_len();
    let mut out = String::from_str("");
    proof {
        reveal_strlit("");
        reveal_strlit("\\");
    }
    let mut i: usize = 0;
    while i < n
        invariant
            n == src@.len(),
            src@ == s@,
            i <= n,
            out@ == escaped(src@.take(i as int)),
        decreases n - i,
    {
        let c = src.get_char(i);
        let one = src.substring_char(i, i + 1);
        assert(one@ =~= seq![c]);
        assert(src@.take(i + 1).drop_last() =~= src@.take(i as int));
        if c == '{' || c == '}' || c == '<' || c == '>' || c == '"' {
            proof {
                reveal_strlit("\\");
            }
            out.append("\\");
            out.append(one);
            assert(out@ =~= escaped(src@.take(i as int)) + seq!['\\', c]);
        } else {
            out.append(one);
            assert(out@ =~= escaped(src@.take(i as int)).push(c));
        }
        i = i + 1;
    }
    assert(src@.take(n as int) =~= src@);
    out
}

/// An edge of a data-flow graph between two locals, with the printed name
/// of the operation it stands for: from a node, or from a constant.
pub enum GraphEdge {
    NodeEdge { src: usize, dst: usize, op: String },
    ConstEdge { src: usize, dst: usize, op: String },
}

/// The printed name of a local.
pub open spec fn local_name(l: usize) -> Seq<char> {
    seq!['_'] + decimal(l as nat)
}

/// The Graphviz line of an edge: `_src -> _dst [label="op" ]`.
pub open spec fn edge_dot(src: usize, dst: usize, op: Seq<char>) -> Seq<char> {
    local_name(src) + " -> "@ + local_name(dst) + " [label=\""@ + escaped(op) + "\" ]"@
}

fn local_text(l: usize) -> (res: String)
    ensures
        res@ == local_name(l),
{
    proof {
        reveal_strlit("_");
    }
    let d = usize_to_decimal(l);
    let r = String::from_str("_");
    r.concat(d.as_str())
}

impl GraphEdge {
    pub fn to_dot_graph(&self) -> (res: String)
        ensures
            res@ == match self {
                GraphEdge::NodeEdge { src, dst, op } => edge_dot(*src, *dst, op@),
                GraphEdge::ConstEdge { src, dst, op } => edge_dot(*src, *dst, op@),
            },
    {
        let (src, dst, op) = match self {
            GraphEdge::NodeEdge { src, dst, op } => (*src, *dst, op),
            GraphEdge::ConstEdge { src, dst, op } => (*src, *dst, op),
        };
        let label = escaped_string(op.clone());
        let attr = String::from_str("label=\"").concat(label.as_str()).concat("\" ");
        let dot = local_text(src).concat(" -> ");
        let dot = dot.concat(local_text(dst).as_str());
        let dot = dot.concat(" [").concat(attr.as_str()).concat("]");
        proof {
            reveal_strlit("label=\"");
            reveal_strlit("\" ");
            reveal_strlit(" -> ");
            reveal_strlit(" [");
            reveal_strlit("]");
            reveal_strlit(" [label=\"");
            reveal_strlit("\" ]");
            assert(dot@ =~= edge_dot(src, dst, op@));
        }
        dot
    }
}


/// What the label of a data-flow node shows of its operation: nothing, a
/// call (with the called function's path), an aggregate of an ADT (with
/// its path), another aggregate or another operation (as printed).
pub enum NodeLabel {
    Nop,
    Call(String),
    AggAdt(String),
    AggOther(String),
    Other(String),
}

/// A node of a data-flow graph, by the operation that defines it.
pub struct GraphNode {
    pub op: NodeLabel,
}

/// The record label (and style) of a node for local `l`; a marker node
/// (one that stands for no local) is drawn dashed without the local.
pub open spec fn node_attr(op: NodeLabel, l: usize, is_marker: bool) -> Seq<char> {
    match op {
        NodeLabel::Nop => if is_marker {
            "label=\"\" style=dashed "@
        } else {
            "label=\"<f0> "@ + local_name(l) + "\" "@
        },
        NodeLabel::Call(f) => if is_marker {
            "label=\"fn "@ + escaped(f@) + "\" style=dashed "@
        } else {
            "label=\"<f0> "@ + local_name(l) + " | <f1> fn "@ + escaped(f@) + "\" "@
        },
        NodeLabel::AggAdt(p) => if is_marker {
            "label=\"Agg "@ + escaped(p@ + "::{..}"@) + "\" style=dashed "@
        } else {
            "label=\"<f0> "@ + local_name(l) + " | <f1> Agg "@ + escaped(p@ + "::{..}"@) + "\" "@
        },
        NodeLabel::AggOther(k) => if is_marker {
            "label=\""@ + k@ + "\" style=dashed "@
        } else {
            "label=\"<f0> "@ + local_name(l) + " | "@ + k@ + "\" "@
        },
        NodeLabel::Other(o) => if is_marker {
            "label=\"<f1> "@ + o@ + "\" style=dashed "@
        } else {
            "label=\"<f0> "@ + local_name(l) + " | <f1> "@ + o@ + "\" "@
        },
    }
}

/// The Graphviz line of a node: `_l [attributes]`, with the colour last.
pub open spec fn node_dot(op: NodeLabel, l: usize, color: Option<Seq<char>>, is_marker: bool) -> Seq<char> {
    let attr = node_attr(op, l, is_marker) + match color {
        Some(c) => "color="@ + c + " "@,
        None => Seq::empty(),
    };
    local_name(l) + " ["@ + attr + "]"@
}

impl GraphNode {
    pub fn to_dot_graph(&self, local: usize, color: Option<String>, is_marker: bool) -> (res: String)
        ensures
            res@ == node_dot(self.op, local, match color {
                Some(c) => Some(c@),
                None => None,
            }, is_marker),
    {
        let mut attr = String::new();
        match &self.op {
            NodeLabel::Nop => {
                if is_marker {
                    attr.append("label=\"\" style=dashed ");
                } else {
                    attr.append("label=\"<f0> ");
                    attr.append(local_text(local).as_str());
                    attr.append("\" ");
                }
            },
            NodeLabel::Call(f) => {
                let name = escaped_string(f.clone());
                if is_marker {
                    attr.append("label=\"fn ");
                    attr.append(name.as_str());
                    attr.append("\" style=dashed ");
                } else {
                    attr.append("label=\"<f0> ");
                    attr.append(local_text(local).as_str());
                    attr.append(" | <f1> fn ");
                    attr.append(name.as_str());
                    attr.append("\" ");
                }
            },
            NodeLabel::AggAdt(p) => {
                let name = escaped_string(p.clone().concat("::{..}"));
                if is_marker {
                    attr.append("label=\"Agg ");
                    attr.append(name.as_str());
                    attr.append("\" style=dashed ");
                } else {
                    attr.append("label=\"<f0> ");
                    attr.append(local_text(local).as_str());
                    attr.append(" | <f1> Agg ");
                    attr.append(name.as_str());
                    attr.append("\" ");
                }
            },
            NodeLabel::AggOther(k) => {
                if is_marker {
                    attr.append("label=\"");
                    attr.append(k.as_str());
                    attr.append("\" style=dashed ");
                } else {
                    attr.append("label=\"<f0> ");
                    attr.append(local_text(local).as_str());
                    attr.append(" | ");
                    attr.append(k.as_str());
                    attr.append("\" ");
                }
            },
            NodeLabel::Other(o) => {
                if is_marker {
                    attr.append("label=\"<f1> ");
                    attr.append(o.as_str());
                    attr.append("\" style=dashed ");
                } else {
                    attr.append("label=\"<f0> ");
                    attr.append(local_text(local).as_str());
                    attr.append(" | <f1> ");
                    attr.append(o.as_str());
                    attr.append("\" ");
                }
            },
        }
        assert(attr@ =~= node_attr(self.op, local, is_marker));
        let ghost a0 = attr@;
        match &color {
            Some(c) => {
                attr.append("color=");
                attr.append(c.as_str());
                attr.append(" ");
            },
            None => {},
        }
        let mut dot = local_text(local);
        dot.append(" [");
        dot.append(attr.as_str());
        dot.append("]");
        assert(dot@ =~= node_dot(self.op, local, match color {
            Some(c) => Some(c@),
            None => None,
        }, is_marker));
        dot
    }
}

/// The data-flow graph of a function: its printed path, one node per
/// local (then the marker nodes), its edges, the number of arguments and
/// the number of locals.
pub struct Graph {
    pub name: String,
    pub nodes: Vec<GraphNode>,
    pub edges: Vec<GraphEdge>,
    pub argc: usize,
    pub n_locals: usize,
}

/// The line of the node of local `l`: the return value and the arguments
/// in red, the other locals plain, marker nodes dashed.
pub open spec fn graph_node_line(g: &Graph, l: int) -> Seq<char> {
    let node = g.nodes@[l];
    let d = if l <= g.argc {
        node_dot(node.op, l as usize, Some("red"@), false)
    } else if l <= g.n_locals {
        node_dot(node.op, l as usize, None, false)
    } else {
        node_dot(node.op, l as usize, None, true)
    };
    "    "@ + d + "\n"@
}

/// The lines of the first `n` nodes.
pub open spec fn graph_nodes_text(g: &Graph, n: int) -> Seq<char>
    decreases n,
{
    if n <= 0 {
        Seq::empty()
    } else {
        graph_nodes_text(g, n - 1) + graph_node_line(g, n - 1)
    }
}

/// The edge of an edge value.
pub open spec fn edge_dot_of(e: GraphEdge) -> Seq<char> {
    match e {
        GraphEdge::NodeEdge { src, dst, op } => edge_dot(src, dst, op@),
        GraphEdge::ConstEdge { src, dst, op } => edge_dot(src, dst, op@),
    }
}

/// The lines of the first `n` edges.
pub open spec fn graph_edges_text(g: &Graph, n: int) -> Seq<char>
    decreases n,
{
    if n <= 0 {
        Seq::empty()
    } else {
        graph_edges_text(g, n - 1) + "    "@ + edge_dot_of(g.edges@[n - 1]) + "\n"@
    }
}

/// The Graphviz description of a data-flow graph.
pub open spec fn graph_dot(g: &Graph) -> Seq<char> {
    "digraph \""@ + g.name@ + "\" {\n"@ + "    node [shape=record];\n"@ + graph_nodes_text(g, g.nodes@.len() as int)
        + graph_edges_text(g, g.edges@.len() as int) + "}\n"@
}

impl Graph {
    pub fn to_dot_graph(&self) -> (res: String)
        ensures
            res@ == graph_dot(self),
    {
        let mut dot = String::from_str("digraph \"");
        dot.append(self.name.as_str());
        dot.append("\" {\n");
        dot.append("    node [shape=record];\n");
        proof {
            reveal_strlit("digraph \"");
        }
        let ghost head = dot@;
        let mut i: usize = 0;
        while i < self.nodes.len()
            invariant
                i <= self.nodes@.len(),
                dot@ == head + graph_nodes_text(self, i as int),
            decreases self.nodes@.len() - i,
        {
            let node_dot = if i <= self.argc {
                self.nodes[i].to_dot_graph(i, Some(String::from_str("red")), false)
            } else if i <= self.n_locals {
                self.nodes[i].to_dot_graph(i, None, false)
            } else {
                self.nodes[i].to_dot_graph(i, None, true)
            };
            proof {
                reveal_strlit("red");
            }
            dot.append("    ");
            dot.append(node_dot.as_str());
            dot.append("\n");
            assert(dot@ =~= head + graph_nodes_text(self, i + 1));
            i = i + 1;
        }
        let ghost mid = dot@;
        let mut j: usize = 0;
        while j < self.edges.len()
            invariant
                j <= self.edges@.len(),
                dot@ == mid + graph_edges_text(self, j as int),
            decreases self.edges@.len() - j,
        {
            let e = self.edges[j].to_dot_graph();
            dot.append("    ");
            dot.append(e.as_str());
            dot.append("\n");
            assert(dot@ =~= mid + graph_edges_text(self, j + 1));
            j = j + 1;
        }
        dot.append("}\n");
        assert(dot@ =~= graph_dot(self));
        dot
    }
}

} // verus!
