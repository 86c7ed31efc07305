use vstd::prelude::*;
use std::collections::HashSet;
use crate::kinds::UigOp;

verus! {

broadcast use vstd::std_specs::hash::group_hash_axioms;

/// A function of the unsafety isolation graph: its definition id, its kind
/// (0 a constructor, 1 a method, 2 a plain function), its constructors
/// when it is a method, its printed name, whether it is declared unsafe,
/// the unsafe functions it calls, whether its callees were collected, and
/// whether it belongs to the analysed crate; with the methods, callers and
/// constructors that the drawn graphs link it to.
#[derive(Debug, Clone)]
pub struct IsolationGraphNode {
    pub node_id: u64,
    pub node_type: usize,
    pub constructor_id: Option<Vec<u64>>,
    pub node_name: String,
    pub node_unsafety: bool,
    pub callees: Vec<u64>,
    pub visited_tag: bool,
    pub is_crate_api: bool,
    pub methods: Vec<u64>,
    pub callers: Vec<u64>,
    pub constructors: Vec<u64>,
}

impl IsolationGraphNode {
    /// A node with no callees, constructors or links yet, not visited.
    pub fn new(node_id: u64, node_type: usize, node_name: String, node_unsafety: bool, is_crate_api: bool) -> (res: Self)
        ensures
            res.node_id == node_id,
            res.node_type == node_type,
            res.constructor_id is None,
            res.node_name@ == node_name@,
            res.node_unsafety == node_unsafety,
            res.callees@.len() == 0,
            !res.visited_tag,
            res.is_crate_api == is_crate_api,
            res.methods@.len() == 0,
            res.callers@.len() == 0,
            res.constructors@.len() == 0,
    {
        IsolationGraphNode {
            node_id,
            node_type,
            constructor_id: None,
            node_name,
            node_unsafety,
            callees: Vec::new(),
            visited_tag: false,
            is_crate_api,
            methods: Vec::new(),
            callers: Vec::new(),
            constructors: Vec::new(),
        }
    }
}

/// One unit of the unsafety isolation graph: a call from `caller` to the
/// unsafe `callee`, with the constructors of both.
#[derive(Debug, Clone)]
pub struct UigUnit {
    pub caller: u64,
    pub callee: u64,
    pub caller_cons: Vec<u64>,
    pub callee_cons: Vec<u64>,
}

/// The unsafe functions of a crate and the functions around them.
pub struct UnsafetyIsolationCheck {
    pub nodes: Vec<IsolationGraphNode>,
    pub related_func_def_id: Vec<u64>,
    pub uigs: Vec<UigUnit>,
}

/// `i` is the first node with the id `id`.
pub open spec fn is_first(nodes: Seq<IsolationGraphNode>, id: u64, i: int) -> bool {
    &&& 0 <= i < nodes.len()
    &&& nodes[i].node_id == id
    &&& forall|j: int| 0 <= j < i ==> #[trigger] nodes[j].node_id != id
}

/// The first node with the id `id`, if any.
pub open spec fn node_of(nodes: Seq<IsolationGraphNode>, id: u64) -> Option<IsolationGraphNode> {
    if exists|i: int| is_first(nodes, id, i) {
        Some(nodes[choose|i: int| is_first(nodes, id, i)])
    } else {
        None
    }
}

/// Some node has the id `id`.
pub open spec fn has_node(nodes: Seq<IsolationGraphNode>, id: u64) -> bool {
    exists|i: int| 0 <= i < nodes.len() && #[trigger] nodes[i].node_id == id
}

proof fn lemma_first_unique(nodes: Seq<IsolationGraphNode>, id: u64, i: int)
    requires
        is_first(nodes, id, i),
    ensures
        node_of(nodes, id) == Some(nodes[i]),
{
    let k = choose|k: int| is_first(nodes, id, k);
    assert(is_first(nodes, id, k));
    if k < i {
        assert(nodes[k].node_id != id);
    }
    if i < k {
        assert(nodes[i].node_id != id);
    }
}

/// The name of the first node with the id `id`, or nothing.
pub open spec fn name_of(nodes: Seq<IsolationGraphNode>, id: u64) -> Seq<char> {
    match node_of(nodes, id) {
        Some(n) => n.node_name@,
        None => Seq::empty(),
    }
}

/// The constructors of the first node with the id `id`, or none.
pub open spec fn cons_of(nodes: Seq<IsolationGraphNode>, id: u64) -> Seq<u64> {
    match node_of(nodes, id) {
        Some(n) => n.constructors@,
        None => Seq::empty(),
    }
}

/// The classes of units: a unit between two functions or constructors
/// (node kinds 0 and 2) is in class 0, whatever the unsafety of
/// constructors; a unit with a method (kind 1) on exactly one side is in
/// class 1, 2, 4 or 5 by which side it is and whether that side's
/// constructors are unsafe; a unit between two methods is in class 3, 6,
/// 7 or 8 by the unsafety of the two sides' constructors; and class 9
/// holds exactly the units with a kind outside {0, 1, 2}.
pub proof fn lemma_unit_classes(caller_type: usize, callee_type: usize, caller_cons_unsafety: bool, callee_cons_unsafety: bool)
    ensures
        ({
            let k = uig_type_index(caller_type, callee_type, caller_cons_unsafety, callee_cons_unsafety);
            &&& 0 <= k <= 9
            &&& (caller_type == 0 || caller_type == 2) && (callee_type == 0 || callee_type == 2) ==> k == 0
            &&& (caller_type == 0 || caller_type == 2) && callee_type == 1 ==> k == (if callee_cons_unsafety { 5int } else { 1int })
            &&& caller_type == 1 && (callee_type == 0 || callee_type == 2) ==> k == (if caller_cons_unsafety { 4int } else { 2int })
            &&& caller_type == 1 && callee_type == 1 ==> k == (if caller_cons_unsafety {
                if callee_cons_unsafety { 8int } else { 7int }
            } else {
                if callee_cons_unsafety { 6int } else { 3int }
            })
            &&& (k == 9 <==> (caller_type > 2 || callee_type > 2))
        }),
{
}

/// The class of a unit of the isolation graph, from the kinds of its caller
/// and callee and whether their constructors are unsafe.
pub open spec fn uig_type_index(caller_type: usize, callee_type: usize, caller_cons_unsafety: bool, callee_cons_unsafety: bool) -> int {
    if (caller_type == 0 || caller_type == 2) && (callee_type == 0 || callee_type == 2) {
        0
    } else if (caller_type == 2 || caller_type == 0) && callee_type == 1 && !callee_cons_unsafety {
        1
    } else if caller_type == 1 && (callee_type == 0 || callee_type == 2) && !caller_cons_unsafety {
        2
    } else if caller_type == 1 && callee_type == 1 && !caller_cons_unsafety && !callee_cons_unsafety {
        3
    } else if caller_type == 1 && (callee_type == 0 || callee_type == 2) && caller_cons_unsafety {
        4
    } else if (caller_type == 0 || caller_type == 2) && callee_type == 1 && callee_cons_unsafety {
        5
    } else if caller_type == 1 && callee_type == 1 && !caller_cons_unsafety && callee_cons_unsafety {
        6
    } else if caller_type == 1 && callee_type == 1 && caller_cons_unsafety && !callee_cons_unsafety {
        7
    } else if caller_type == 1 && callee_type == 1 && caller_cons_unsafety && callee_cons_unsafety {
        8
    } else {
        9
    }
}

/// `new` is `old` with the function `id` added as an unsafe, unvisited
/// node of the given kind and name (with the constructors, for a method),
/// belonging to the crate when it is one of the `related` functions; or
/// `old` itself when it already has a node for `id`.
pub open spec fn node_inserted(
    old: Seq<IsolationGraphNode>,
    new: Seq<IsolationGraphNode>,
    related: Seq<u64>,
    id: u64,
    node_type: usize,
    name: Seq<char>,
    constructor_id: Option<Vec<u64>>,
) -> bool {
    if has_node(old, id) {
        new == old
    } else {
        let n = new.last();
        &&& new.len() == old.len() + 1
        &&& new.drop_last() == old
        &&& n.node_id == id
        &&& n.node_type == node_type
        &&& n.node_name@ == name
        &&& n.node_unsafety
        &&& n.is_crate_api == related.contains(id)
        &&& n.constructor_id == if node_type == 1 {
            constructor_id
        } else {
            None
        }
        &&& n.callees@.len() == 0
        &&& !n.visited_tag
    }
}

/// After a function is inserted it has a node, and inserting it again
/// changes nothing.
pub proof fn lemma_insert_node_once(
    a: Seq<IsolationGraphNode>,
    b: Seq<IsolationGraphNode>,
    c: Seq<IsolationGraphNode>,
    related: Seq<u64>,
    id: u64,
    t1: usize,
    t2: usize,
    n1: Seq<char>,
    n2: Seq<char>,
    c1: Option<Vec<u64>>,
    c2: Option<Vec<u64>>,
)
    requires
        node_inserted(a, b, related, id, t1, n1, c1),
        node_inserted(b, c, related, id, t2, n2, c2),
    ensures
        has_node(b, id),
        c == b,
{
    if !has_node(a, id) {
        assert(b[b.len() - 1].node_id == id);
    }
}

impl UnsafetyIsolationCheck {
    pub fn new() -> (res: Self)
        ensures
            res.nodes@.len() == 0,
            res.related_func_def_id@.len() == 0,
            res.uigs@.len() == 0,
    {
        UnsafetyIsolationCheck { nodes: Vec::new(), related_func_def_id: Vec::new(), uigs: Vec::new() }
    }

    /// The position of the first node with the id `id`.
    fn find_index(&self, id: u64) -> (res: Option<usize>)
        ensures
            match res {
                Some(i) => is_first(self.nodes@, id, i as int) && node_of(self.nodes@, id) == Some(self.nodes@[i as int]),
                None => !has_node(self.nodes@, id) && node_of(self.nodes@, id) is None,
            },
    {
        let mut i: usize = 0;
        while i < self.nodes.len()
            invariant
                i <= self.nodes@.len(),
                forall|j: int| 0 <= j < i ==> #[trigger] self.nodes@[j].node_id != id,
            decreases self.nodes@.len() - i,
        {
            if self.nodes[i].node_id == id {
                proof {
                    lemma_first_unique(self.nodes@, id, i as int);
                }
                return Some(i);
            }
            i = i + 1;
        }
        proof {
            if exists|k: int| is_first(self.nodes@, id, k) {
                let k = choose|k: int| is_first(self.nodes@, id, k);
                assert(self.nodes@[k].node_id == id);
            }
        }
        None
    }

    /// Some node has the id `body_did`.
    pub fn check_if_node_exists(&self, body_did: u64) -> (res: bool)
        ensures
            res == has_node(self.nodes@, body_did),
    {
        match self.find_index(body_did) {
            Some(i) => {
                assert(self.nodes@[i as int].node_id == body_did);
                true
            },
            None => false,
        }
    }

    /// The function `body_did` is a node of the analysed crate.
    pub fn is_crate_api_node(&self, body_did: u64) -> (res: bool)
        ensures
            res == match node_of(self.nodes@, body_did) {
                Some(n) => n.is_crate_api,
                None => false,
            },
    {
        match self.find_index(body_did) {
            Some(i) => self.nodes[i].is_crate_api,
            None => false,
        }
    }

    /// The name of the node `def_id` (empty when there is none).
    pub fn get_node_name_by_def_id(&self, def_id: u64) -> (res: String)
        ensures
            res@ == name_of(self.nodes@, def_id),
    {
        match self.find_index(def_id) {
            Some(i) => self.nodes[i].node_name.clone(),
            None => String::new(),
        }
    }

    /// The kind of the node `def_id` (a plain function when there is none).
    pub fn get_node_type_by_def_id(&self, def_id: u64) -> (res: usize)
        ensures
            res == match node_of(self.nodes@, def_id) {
                Some(n) => n.node_type,
                None => 2,
            },
    {
        match self.find_index(def_id) {
            Some(i) => self.nodes[i].node_type,
            None => 2,
        }
    }

    /// Whether the node `def_id` is declared unsafe (not when there is none).
    pub fn get_node_unsafety_by_def_id(&self, def_id: u64) -> (res: bool)
        ensures
            res == match node_of(self.nodes@, def_id) {
                Some(n) => n.node_unsafety,
                None => false,
            },
    {
        match self.find_index(def_id) {
            Some(i) => self.nodes[i].node_unsafety,
            None => false,
        }
    }

    /// The nodes linked to `def_id`: its callees, methods, callers and
    /// constructors, in that order.
    pub fn get_adjacent_nodes_by_def_id(&self, def_id: u64) -> (res: Vec<u64>)
        ensures
            res@ == match node_of(self.nodes@, def_id) {
                Some(n) => n.callees@ + n.methods@ + n.callers@ + n.constructors@,
                None => Seq::empty(),
            },
    {
        let mut nodes: Vec<u64> = Vec::new();
        match self.find_index(def_id) {
            Some(i) => {
                let n = &self.nodes[i];
                let mut a = n.callees.clone();
                let mut b = n.methods.clone();
                let mut c = n.callers.clone();
                let mut d = n.constructors.clone();
                nodes.append(&mut a);
                nodes.append(&mut b);
                nodes.append(&mut c);
                nodes.append(&mut d);
                assert(nodes@ =~= n.callees@ + n.methods@ + n.callers@ + n.constructors@);
            },
            None => {},
        }
        nodes
    }

    /// The constructors of the node `def_id` (none when there is none).
    pub fn get_constructor_nodes_by_def_id(&self, def_id: u64) -> (res: Vec<u64>)
        ensures
            res@ == cons_of(self.nodes@, def_id),
    {
        match self.find_index(def_id) {
            Some(i) => {
                let c = self.nodes[i].constructors.clone();
                assert(c@ =~= self.nodes@[i as int].constructors@);
                c
            },
            None => Vec::new(),
        }
    }

    /// Adds the function `body_did` (of the given kind, name and, for a
    /// method, constructors) as an unsafe, unvisited node, unless a node
    /// for it exists; it belongs to the crate when it is one of the
    /// crate's related functions.
    pub fn insert_node(&mut self, body_did: u64, node_type: usize, name: String, constructor_id: Option<Vec<u64>>)
        ensures
            final(self).related_func_def_id == old(self).related_func_def_id,
            final(self).uigs == old(self).uigs,
            node_inserted(old(self).nodes@, final(self).nodes@, old(self).related_func_def_id@, body_did, node_type, name@, constructor_id),
    {
        if self.check_if_node_exists(body_did) {
            return;
        }
        let is_crate_api = contains_id(&self.related_func_def_id, body_did);
        let mut new_node = IsolationGraphNode::new(body_did, node_type, name, true, is_crate_api);
        if node_type == 1 {
            new_node.constructor_id = constructor_id;
        }
        new_node.visited_tag = false;
        self.nodes.push(new_node);
        assert(self.nodes@.drop_last() =~= old(self).nodes@);
    }

    /// Counts one unit of the given class in `vec`.
    pub fn update_type_vec(vec: &mut Vec<usize>, caller_type: usize, callee_type: usize, caller_cons_unsafety: bool, callee_cons_unsafety: bool)
        requires
            old(vec)@.len() >= 10,
            old(vec)@[uig_type_index(caller_type, callee_type, caller_cons_unsafety, callee_cons_unsafety)] < usize::MAX,
        ensures
            ({
                let k = uig_type_index(caller_type, callee_type, caller_cons_unsafety, callee_cons_unsafety);
                final(vec)@ == old(vec)@.update(k, (old(vec)@[k] + 1) as usize)
            }),
    {
        let index: usize = match (caller_type, callee_type, caller_cons_unsafety, callee_cons_unsafety) {
            (0, 0, _, _) => 0,
            (0, 2, _, _) => 0,
            (2, 0, _, _) => 0,
            (2, 2, _, _) => 0,
            (2, 1, _, false) => 1,
            (0, 1, _, false) => 1,
            (1, 0, false, _) | (1, 2, false, _) => 2,
            (1, 1, false, false) => 3,
            (1, 0, true, _) | (1, 2, true, _) => 4,
            (0, 1, _, true) | (2, 1, _, true) => 5,
            (1, 1, false, true) => 6,
            (1, 1, true, false) => 7,
            (1, 1, true, true) => 8,
            _ => 9,
        };
        assert(index as int == uig_type_index(caller_type, callee_type, caller_cons_unsafety, callee_cons_unsafety));
        let v = vec[index];
        vec.set(index, v + 1);
    }
}

/// Whether `v` holds `id`.
fn contains_id(v: &Vec<u64>, id: u64) -> (res: bool)
    ensures
        res == v@.contains(id),
{
    let mut i: usize = 0;
    while i < v.len()
        invariant
            i <= v@.len(),
            forall|j: int| 0 <= j < i ==> v@[j] != id,
        decreases v@.len() - i,
    {
        if v[i] == id {
            assert(v@[i as int] == id);
            return true;
        }
        i = i + 1;
    }
    false
}


/// How a node of the given kind is drawn.
pub open spec fn shape_of(node_type: usize) -> Seq<char> {
    if node_type == 0 {
        "doublecircle"@
    } else if node_type == 2 {
        "box"@
    } else {
        "ellipse"@
    }
}

/// Unsafe functions are drawn in red.
pub open spec fn color_of(node_unsafety: bool) -> Seq<char> {
    if node_unsafety {
        "red"@
    } else {
        "black"@
    }
}

/// The Graphviz line of a node.
pub open spec fn node_line(n: IsolationGraphNode) -> Seq<char> {
    "        \""@ + n.node_name@ + "\" [shape="@ + shape_of(n.node_type) + ", style=filled, color="@ + color_of(n.node_unsafety)
        + ", fillcolor=white];\n"@
}

/// The Graphviz line of an edge.
pub open spec fn edge_line(src: Seq<char>, dst: Seq<char>, style: Seq<char>) -> Seq<char> {
    "    \""@ + src + "\" -> \""@ + dst + "\" [style="@ + style + "];\n"@
}

/// The lines of the nodes `ids` that are (or, with `api` false, are not)
/// functions of the crate, in order.
pub open spec fn cluster_text(nodes: Seq<IsolationGraphNode>, ids: Seq<u64>, api: bool) -> Seq<char>
    decreases ids.len(),
{
    if ids.len() == 0 {
        Seq::empty()
    } else {
        let prev = cluster_text(nodes, ids.drop_last(), api);
        let n = node_of(nodes, ids.last()).unwrap();
        if n.is_crate_api == api {
            prev + node_line(n)
        } else {
            prev
        }
    }
}

/// The solid edges from `n` to those of the callees `cs` that are nodes.
pub open spec fn callee_edges(nodes: Seq<IsolationGraphNode>, n: IsolationGraphNode, cs: Seq<u64>) -> Seq<char>
    decreases cs.len(),
{
    if cs.len() == 0 {
        Seq::empty()
    } else {
        let prev = callee_edges(nodes, n, cs.drop_last());
        match node_of(nodes, cs.last()) {
            Some(c) => prev + edge_line(n.node_name@, c.node_name@, "solid"@),
            None => prev,
        }
    }
}

/// The dashed edges to `n` from those of the constructors `cs` that are nodes.
pub open spec fn cons_edges(nodes: Seq<IsolationGraphNode>, n: IsolationGraphNode, cs: Seq<u64>) -> Seq<char>
    decreases cs.len(),
{
    if cs.len() == 0 {
        Seq::empty()
    } else {
        let prev = cons_edges(nodes, n, cs.drop_last());
        match node_of(nodes, cs.last()) {
            Some(c) => prev + edge_line(c.node_name@, n.node_name@, "dashed"@),
            None => prev,
        }
    }
}

/// The edges of the unsafety propagation graph of the nodes `ids`: each
/// node's callee edges, then its constructor edges, node after node.
pub open spec fn upg_edges(nodes: Seq<IsolationGraphNode>, ids: Seq<u64>) -> Seq<char>
    decreases ids.len(),
{
    if ids.len() == 0 {
        Seq::empty()
    } else {
        let n = node_of(nodes, ids.last()).unwrap();
        upg_edges(nodes, ids.drop_last()) + callee_edges(nodes, n, n.callees@) + cons_edges(nodes, n, n.constructors@)
    }
}

/// Dashed edges from the constructors `cs` (by name) to `target`.
pub open spec fn dashed_edges(nodes: Seq<IsolationGraphNode>, cs: Seq<u64>, target: Seq<char>) -> Seq<char>
    decreases cs.len(),
{
    if cs.len() == 0 {
        Seq::empty()
    } else {
        dashed_edges(nodes, cs.drop_last(), target) + edge_line(name_of(nodes, cs.last()), target, "dashed"@)
    }
}

/// The edges of one unit of the isolation graph: the call, then the
/// constructors of the caller and of the callee.
pub open spec fn uig_edges(nodes: Seq<IsolationGraphNode>, u: UigUnit) -> Seq<char> {
    uig_edges_of(nodes, u.caller, u.callee, u.caller_cons@, u.callee_cons@)
}

/// The edges of a call from `caller` to `callee` with the given constructors.
pub open spec fn uig_edges_of(nodes: Seq<IsolationGraphNode>, caller: u64, callee: u64, caller_cons: Seq<u64>, callee_cons: Seq<u64>) -> Seq<char> {
    edge_line(name_of(nodes, caller), name_of(nodes, callee), "solid"@) + dashed_edges(nodes, caller_cons, name_of(nodes, caller))
        + dashed_edges(nodes, callee_cons, name_of(nodes, callee))
}

/// The opening lines of every drawn graph.
pub open spec fn dot_head() -> Seq<char> {
    "digraph APIs {\n"@ + "    rankdir=LR;\n"@ + "    rank=same;\n"@ + "    fontname=\"Arial\";\n"@ + "    fontsize=\"12\";\n"@
        + "    fontcolor=\"blue\";\n"@
}

/// The Graphviz description of the nodes `ids`: the crate's functions in
/// one cluster, the others in another, then the edges of the propagation
/// graph (with `upg`) or of the unit `unit`.
pub open spec fn dot_desc(nodes: Seq<IsolationGraphNode>, ids: Seq<u64>, upg: bool, unit: Option<UigUnit>) -> Seq<char> {
    dot_head() + "    subgraph cluster_above {\n"@ + cluster_text(nodes, ids, true) + "    }\n"@
        + "    subgraph cluster_below {\n"@ + cluster_text(nodes, ids, false) + "    }\n"@
        + (if upg {
        upg_edges(nodes, ids)
    } else {
        uig_edges(nodes, unit.unwrap())
    }) + "}\n"@
}

fn shape_text(node_type: usize) -> (res: &'static str)
    ensures
        res@ == shape_of(node_type),
{
    if node_type == 0 {
        "doublecircle"
    } else if node_type == 2 {
        "box"
    } else {
        "ellipse"
    }
}

fn color_text(node_unsafety: bool) -> (res: &'static str)
    ensures
        res@ == color_of(node_unsafety),
{
    if node_unsafety {
        "red"
    } else {
        "black"
    }
}

/// Appends the line of node `n` to `out`.
fn push_node_line(out: &mut String, n: &IsolationGraphNode)
    ensures
        final(out)@ == old(out)@ + node_line(*n),
{
    out.append("        \"");
    out.append(n.node_name.as_str());
    out.append("\" [shape=");
    out.append(shape_text(n.node_type));
    out.append(", style=filled, color=");
    out.append(color_text(n.node_unsafety));
    out.append(", fillcolor=white];\n");
    assert(out@ =~= old(out)@ + node_line(*n));
}

/// Appends the line of an edge to `out`.
fn push_edge_line(out: &mut String, src: &str, dst: &str, style: &str)
    ensures
        final(out)@ == old(out)@ + edge_line(src@, dst@, style@),
{
    out.append("    \"");
    out.append(src);
    out.append("\" -> \"");
    out.append(dst);
    out.append("\" [style=");
    out.append(style);
    out.append("];\n");
    assert(out@ =~= old(out)@ + edge_line(src@, dst@, style@));
}

impl UnsafetyIsolationCheck {
    /// Appends the lines of the nodes `ids` of one cluster to `out`.
    fn push_cluster(&self, out: &mut String, ids: &Vec<u64>, api: bool)
        requires
            forall|t: int| 0 <= t < ids@.len() ==> has_node(self.nodes@, #[trigger] ids@[t]),
        ensures
            final(out)@ == old(out)@ + cluster_text(self.nodes@, ids@, api),
    {
        let mut i: usize = 0;
        assert(ids@.take(0) =~= Seq::<u64>::empty());
        while i < ids.len()
            invariant
                i <= ids@.len(),
                forall|t: int| 0 <= t < ids@.len() ==> has_node(self.nodes@, #[trigger] ids@[t]),
                out@ == old(out)@ + cluster_text(self.nodes@, ids@.take(i as int), api),
            decreases ids@.len() - i,
        {
            let id = ids[i];
            proof {
                assert(ids@.take(i + 1).drop_last() =~= ids@.take(i as int));
                assert(ids@.take(i + 1).last() == id);
                assert(has_node(self.nodes@, ids@[i as int]));
            }
            match self.find_index(id) {
                Some(k) => {
                    let n = &self.nodes[k];
                    if n.is_crate_api == api {
                        push_node_line(out, n);
                    }
                    assert(out@ =~= old(out)@ + cluster_text(self.nodes@, ids@.take(i + 1), api));
                },
                None => {},
            }
            i = i + 1;
        }
        assert(ids@.take(ids@.len() as int) =~= ids@);
    }

    /// Appends the edges of the propagation graph of node `n` to `out`.
    fn push_node_edges(&self, out: &mut String, n: &IsolationGraphNode)
        ensures
            final(out)@ == old(out)@ + callee_edges(self.nodes@, *n, n.callees@) + cons_edges(self.nodes@, *n, n.constructors@),
    {
        let mut j: usize = 0;
        let ghost start = out@;
        assert(n.callees@.take(0) =~= Seq::<u64>::empty());
        while j < n.callees.len()
            invariant
                j <= n.callees@.len(),
                out@ == start + callee_edges(self.nodes@, *n, n.callees@.take(j as int)),
            decreases n.callees@.len() - j,
        {
            proof {
                assert(n.callees@.take(j + 1).drop_last() =~= n.callees@.take(j as int));
            }
            match self.find_index(n.callees[j]) {
                Some(k) => {
                    push_edge_line(out, n.node_name.as_str(), self.nodes[k].node_name.as_str(), "solid");
                    assert(out@ =~= start + callee_edges(self.nodes@, *n, n.callees@.take(j + 1)));
                },
                None => {},
            }
            j = j + 1;
        }
        assert(n.callees@.take(n.callees@.len() as int) =~= n.callees@);
        let ghost mid = out@;
        let mut j: usize = 0;
        assert(n.constructors@.take(0) =~= Seq::<u64>::empty());
        while j < n.constructors.len()
            invariant
                j <= n.constructors@.len(),
                out@ == mid + cons_edges(self.nodes@, *n, n.constructors@.take(j as int)),
            decreases n.constructors@.len() - j,
        {
            proof {
                assert(n.constructors@.take(j + 1).drop_last() =~= n.constructors@.take(j as int));
            }
            match self.find_index(n.constructors[j]) {
                Some(k) => {
                    push_edge_line(out, self.nodes[k].node_name.as_str(), n.node_name.as_str(), "dashed");
                    assert(out@ =~= mid + cons_edges(self.nodes@, *n, n.constructors@.take(j + 1)));
                },
                None => {},
            }
            j = j + 1;
        }
        assert(n.constructors@.take(n.constructors@.len() as int) =~= n.constructors@);
    }

    /// Appends dashed edges from the constructors `cs` to `target`.
    fn push_dashed(&self, out: &mut String, cs: &Vec<u64>, target: &str)
        ensures
            final(out)@ == old(out)@ + dashed_edges(self.nodes@, cs@, target@),
    {
        let mut j: usize = 0;
        assert(cs@.take(0) =~= Seq::<u64>::empty());
        while j < cs.len()
            invariant
                j <= cs@.len(),
                out@ == old(out)@ + dashed_edges(self.nodes@, cs@.take(j as int), target@),
            decreases cs@.len() - j,
        {
            proof {
                assert(cs@.take(j + 1).drop_last() =~= cs@.take(j as int));
            }
            let name = self.get_node_name_by_def_id(cs[j]);
            push_edge_line(out, name.as_str(), target, "dashed");
            assert(out@ =~= old(out)@ + dashed_edges(self.nodes@, cs@.take(j + 1), target@));
            j = j + 1;
        }
        assert(cs@.take(cs@.len() as int) =~= cs@);
    }

    /// The Graphviz description of the nodes `subgraph_nodes` (in that
    /// order; see `dot_desc`), with the edges of the propagation graph
    /// (`upg_flag`) or of the unit `uig_unit_op`.
    pub fn generate_dot_desc(&self, subgraph_nodes: &Vec<u64>, upg_flag: bool, uig_unit_op: Option<UigUnit>) -> (res: String)
        requires
            forall|t: int| 0 <= t < subgraph_nodes@.len() ==> has_node(self.nodes@, #[trigger] subgraph_nodes@[t]),
            !upg_flag ==> uig_unit_op is Some,
        ensures
            res@ == dot_desc(self.nodes@, subgraph_nodes@, upg_flag, uig_unit_op),
    {
        let mut dot = String::new();
        dot.append("digraph APIs {\n");
        dot.append("    rankdir=LR;\n");
        dot.append("    rank=same;\n");
        dot.append("    fontname=\"Arial\";\n");
        dot.append("    fontsize=\"12\";\n");
        dot.append("    fontcolor=\"blue\";\n");
        assert(dot@ =~= dot_head());
        dot.append("    subgraph cluster_above {\n");
        self.push_cluster(&mut dot, subgraph_nodes, true);
        dot.append("    }\n");
        dot.append("    subgraph cluster_below {\n");
        self.push_cluster(&mut dot, subgraph_nodes, false);
        dot.append("    }\n");
        let ghost before_edges = dot@;
        if upg_flag {
            let mut i: usize = 0;
            assert(subgraph_nodes@.take(0) =~= Seq::<u64>::empty());
            while i < subgraph_nodes.len()
                invariant
                    i <= subgraph_nodes@.len(),
                    forall|t: int| 0 <= t < subgraph_nodes@.len() ==> has_node(self.nodes@, #[trigger] subgraph_nodes@[t]),
                    dot@ == before_edges + upg_edges(self.nodes@, subgraph_nodes@.take(i as int)),
                decreases subgraph_nodes@.len() - i,
            {
                let id = subgraph_nodes[i];
                proof {
                    assert(subgraph_nodes@.take(i + 1).drop_last() =~= subgraph_nodes@.take(i as int));
                    assert(subgraph_nodes@.take(i + 1).last() == id);
                    assert(has_node(self.nodes@, subgraph_nodes@[i as int]));
                }
                match self.find_index(id) {
                    Some(k) => {
                        self.push_node_edges(&mut dot, &self.nodes[k]);
                        assert(dot@ =~= before_edges + upg_edges(self.nodes@, subgraph_nodes@.take(i + 1)));
                    },
                    None => {},
                }
                i = i + 1;
            }
            assert(subgraph_nodes@.take(subgraph_nodes@.len() as int) =~= subgraph_nodes@);
        } else {
            match &uig_unit_op {
                Some(u) => {
                    let caller_name = self.get_node_name_by_def_id(u.caller);
                    let callee_name = self.get_node_name_by_def_id(u.callee);
                    push_edge_line(&mut dot, caller_name.as_str(), callee_name.as_str(), "solid");
                    self.push_dashed(&mut dot, &u.caller_cons, caller_name.as_str());
                    self.push_dashed(&mut dot, &u.callee_cons, callee_name.as_str());
                    assert(dot@ =~= before_edges + uig_edges(self.nodes@, *u));
                },
                None => {},
            }
        }
        dot.append("}\n");
        assert(dot@ =~= dot_desc(self.nodes@, subgraph_nodes@, upg_flag, uig_unit_op));
        dot
    }
}


/// The calls of the graph, as caller-callee pairs: each node's callees in
/// order, node after node.
pub open spec fn uig_pairs(nodes: Seq<IsolationGraphNode>, n: int) -> Seq<(u64, u64)>
    decreases n,
{
    if n <= 0 {
        Seq::empty()
    } else {
        let node = nodes[n - 1];
        uig_pairs(nodes, n - 1) + node.callees@.map_values(|c: u64| (node.node_id, c))
    }
}

/// `s` without repetitions, each element kept where it first occurs.
pub open spec fn dedup(s: Seq<u64>) -> Seq<u64>
    decreases s.len(),
{
    if s.len() == 0 {
        Seq::empty()
    } else {
        let d = dedup(s.drop_last());
        if d.contains(s.last()) {
            d
        } else {
            d.push(s.last())
        }
    }
}

/// The nodes drawn for the call `p`: caller, callee and their constructors.
pub open spec fn uig_ids(nodes: Seq<IsolationGraphNode>, p: (u64, u64)) -> Seq<u64> {
    dedup(seq![p.0, p.1] + cons_of(nodes, p.0) + cons_of(nodes, p.1))
}

/// The drawing of the call `p`.
pub open spec fn uig_desc(nodes: Seq<IsolationGraphNode>, p: (u64, u64)) -> Seq<char> {
    let ids = uig_ids(nodes, p);
    dot_head() + "    subgraph cluster_above {\n"@ + cluster_text(nodes, ids, true) + "    }\n"@
        + "    subgraph cluster_below {\n"@ + cluster_text(nodes, ids, false) + "    }\n"@
        + uig_edges_of(nodes, p.0, p.1, cons_of(nodes, p.0), cons_of(nodes, p.1)) + "}\n"@
}

/// `u` is the unit of the call `p`.
pub open spec fn unit_of(nodes: Seq<IsolationGraphNode>, u: UigUnit, p: (u64, u64)) -> bool {
    &&& u.caller == p.0
    &&& u.callee == p.1
    &&& u.caller_cons@ == cons_of(nodes, p.0)
    &&& u.callee_cons@ == cons_of(nodes, p.1)
}

/// Every callee is a node, and so is every constructor of a node.
pub open spec fn uig_linked(nodes: Seq<IsolationGraphNode>) -> bool {
    &&& forall|i: int, t: int| 0 <= i < nodes.len() && 0 <= t < nodes[i].callees@.len() ==> has_node(nodes, #[trigger] nodes[i].callees@[t])
    &&& forall|i: int, t: int| 0 <= i < nodes.len() && 0 <= t < nodes[i].constructors@.len() ==> has_node(nodes, #[trigger] nodes[i].constructors@[t])
}

proof fn lemma_dedup_facts(s: Seq<u64>)
    ensures
        dedup(s).no_duplicates(),
        forall|x: u64| dedup(s).contains(x) <==> s.contains(x),
    decreases s.len(),
{
    if s.len() > 0 {
        let sd = s.drop_last();
        let l = s.last();
        lemma_dedup_facts(sd);
        let d = dedup(sd);
        assert forall|x: u64| s.contains(x) <==> (sd.contains(x) || x == l) by {
            if s.contains(x) {
                let k = choose|k: int| 0 <= k < s.len() && s[k] == x;
                if k < s.len() - 1 {
                    assert(sd[k] == x);
                }
            }
            if sd.contains(x) {
                let k = choose|k: int| 0 <= k < sd.len() && sd[k] == x;
                assert(s[k] == x);
            }
            if x == l {
                assert(s[s.len() - 1] == x);
            }
        }
        if !d.contains(l) {
            let e = d.push(l);
            assert forall|x: u64| e.contains(x) <==> (d.contains(x) || x == l) by {
                if e.contains(x) {
                    let k = choose|k: int| 0 <= k < e.len() && e[k] == x;
                    if k < d.len() {
                        assert(d[k] == x);
                    }
                }
                if d.contains(x) {
                    let k = choose|k: int| 0 <= k < d.len() && d[k] == x;
                    assert(e[k] == x);
                }
                if x == l {
                    assert(e[d.len() as int] == x);
                }
            }
            assert forall|i: int, j: int| 0 <= i < e.len() && 0 <= j < e.len() && i != j implies e[i] != e[j] by {
                if i < d.len() && j < d.len() {
                    assert(d[i] != d[j]);
                } else if i < d.len() {
                    assert(d.contains(d[i]));
                } else {
                    assert(d.contains(d[j]));
                }
            }
        }
    }
}

/// Appends to `sub` each of `ids` that it does not hold yet.
fn push_new_ids(sub: &mut Vec<u64>, ids: &Vec<u64>)
    ensures
        final(sub)@ == dedup_onto(old(sub)@, ids@),
{
    let mut i: usize = 0;
    assert(ids@.take(0) =~= Seq::<u64>::empty());
    while i < ids.len()
        invariant
            i <= ids@.len(),
            sub@ == dedup_onto(old(sub)@, ids@.take(i as int)),
        decreases ids@.len() - i,
    {
        proof {
            assert(ids@.take(i + 1).drop_last() =~= ids@.take(i as int));
        }
        if !contains_id(sub, ids[i]) {
            sub.push(ids[i]);
        }
        i = i + 1;
    }
    assert(ids@.take(ids@.len() as int) =~= ids@);
}

/// `base` followed by the elements of `s` that are new, in order.
pub open spec fn dedup_onto(base: Seq<u64>, s: Seq<u64>) -> Seq<u64>
    decreases s.len(),
{
    if s.len() == 0 {
        base
    } else {
        let d = dedup_onto(base, s.drop_last());
        if d.contains(s.last()) {
            d
        } else {
            d.push(s.last())
        }
    }
}

proof fn lemma_dedup_onto(a: Seq<u64>, b: Seq<u64>)
    ensures
        dedup_onto(dedup(a), b) == dedup(a + b),
    decreases b.len(),
{
    if b.len() == 0 {
        assert(a + b =~= a);
    } else {
        lemma_dedup_onto(a, b.drop_last());
        assert((a + b).drop_last() =~= a + b.drop_last());
        assert((a + b).last() == b.last());
    }
}

impl UnsafetyIsolationCheck {
    /// The units of the isolation graph, one per call of a node to an
    /// unsafe callee: with `DrawPic`, the drawing of each (see
    /// `uig_desc`); with `TypeCount`, the units are recorded in `uigs`
    /// (and nothing is drawn) for `uig_type_count`.
    pub fn generate_uig(&mut self, op: UigOp) -> (res: Vec<String>)
        requires
            op == UigOp::DrawPic ==> uig_linked(old(self).nodes@),
        ensures
            final(self).nodes == old(self).nodes,
            final(self).related_func_def_id == old(self).related_func_def_id,
            ({
                let pairs = uig_pairs(old(self).nodes@, old(self).nodes@.len() as int);
                let nodes = old(self).nodes@;
                if op == UigOp::DrawPic {
                    &&& final(self).uigs == old(self).uigs
                    &&& res@.len() == pairs.len()
                    &&& forall|k: int| 0 <= k < pairs.len() ==> (#[trigger] res@[k])@ == uig_desc(nodes, pairs[k])
                } else {
                    &&& res@.len() == 0
                    &&& final(self).uigs@.len() == old(self).uigs@.len() + pairs.len()
                    &&& forall|k: int| 0 <= k < old(self).uigs@.len() ==> #[trigger] final(self).uigs@[k] == old(self).uigs@[k]
                    &&& forall|k: int| 0 <= k < pairs.len() ==> unit_of(nodes, #[trigger] final(self).uigs@[old(self).uigs@.len() + k], pairs[k])
                }
            }),
    {
        let ghost nodes = self.nodes@;
        let ghost u0 = self.uigs@;
        let mut graphs: Vec<String> = Vec::new();
        let mut i: usize = 0;
        while i < self.nodes.len()
            invariant
                self.nodes@ == nodes,
                self.nodes == old(self).nodes,
                self.related_func_def_id == old(self).related_func_def_id,
                u0 == old(self).uigs@,
                op == UigOp::DrawPic ==> uig_linked(nodes),
                i <= nodes.len(),
                op == UigOp::DrawPic ==> {
                    &&& self.uigs == old(self).uigs
                    &&& graphs@.len() == uig_pairs(nodes, i as int).len()
                    &&& forall|k: int| 0 <= k < uig_pairs(nodes, i as int).len() ==> (#[trigger] graphs@[k])@ == uig_desc(nodes, uig_pairs(nodes, i as int)[k])
                },
                op != UigOp::DrawPic ==> {
                    &&& graphs@.len() == 0
                    &&& self.uigs@.len() == u0.len() + uig_pairs(nodes, i as int).len()
                    &&& forall|k: int| 0 <= k < u0.len() ==> #[trigger] self.uigs@[k] == u0[k]
                    &&& forall|k: int| 0 <= k < uig_pairs(nodes, i as int).len() ==> unit_of(nodes, #[trigger] self.uigs@[u0.len() + k], uig_pairs(nodes, i as int)[k])
                },
            decreases nodes.len() - i,
        {
            let node_id = self.nodes[i].node_id;
            let ghost before = uig_pairs(nodes, i as int);
            let ghost mine = nodes[i as int].callees@.map_values(|c: u64| (node_id, c));
            assert(uig_pairs(nodes, i + 1) == before + mine);
            let n_callees = self.nodes[i].callees.len();
            let mut j: usize = 0;
            while j < n_callees
                invariant
                    self.nodes@ == nodes,
                    self.nodes == old(self).nodes,
                    self.related_func_def_id == old(self).related_func_def_id,
                    u0 == old(self).uigs@,
                    op == UigOp::DrawPic ==> uig_linked(nodes),
                    i < nodes.len(),
                    node_id == nodes[i as int].node_id,
                    n_callees == nodes[i as int].callees@.len(),
                    mine == nodes[i as int].callees@.map_values(|c: u64| (node_id, c)),
                    before == uig_pairs(nodes, i as int),
                    j <= n_callees,
                    op == UigOp::DrawPic ==> {
                        &&& self.uigs == old(self).uigs
                        &&& graphs@.len() == before.len() + j
                        &&& forall|k: int| 0 <= k < before.len() + j ==> (#[trigger] graphs@[k])@ == uig_desc(nodes, (before + mine)[k])
                    },
                    op != UigOp::DrawPic ==> {
                        &&& graphs@.len() == 0
                        &&& self.uigs@.len() == u0.len() + before.len() + j
                        &&& forall|k: int| 0 <= k < u0.len() ==> #[trigger] self.uigs@[k] == u0[k]
                        &&& forall|k: int| 0 <= k < before.len() + j ==> unit_of(nodes, #[trigger] self.uigs@[u0.len() + k], (before + mine)[k])
                    },
                decreases n_callees - j,
            {
                let callee = self.nodes[i].callees[j];
                let ghost p = (node_id, callee);
                assert((before + mine)[before.len() + j] == p);
                let caller_cons = self.get_constructor_nodes_by_def_id(node_id);
                let callee_cons = self.get_constructor_nodes_by_def_id(callee);
                let mut sub: Vec<u64> = Vec::new();
                sub.push(node_id);
                if callee != node_id {
                    sub.push(callee);
                }
                proof {
                    reveal_with_fuel(dedup, 3);
                    assert(seq![node_id, callee].drop_last() =~= seq![node_id]);
                    assert(seq![node_id].drop_last() =~= Seq::<u64>::empty());
                    assert(sub@ =~= dedup(seq![node_id, callee]));
                }
                push_new_ids(&mut sub, &caller_cons);
                proof {
                    lemma_dedup_onto(seq![node_id, callee], cons_of(nodes, node_id));
                }
                push_new_ids(&mut sub, &callee_cons);
                proof {
                    lemma_dedup_onto(seq![node_id, callee] + cons_of(nodes, node_id), cons_of(nodes, callee));
                    assert(sub@ == uig_ids(nodes, p));
                }
                let unit = UigUnit { caller: node_id, callee, caller_cons, callee_cons };
                if op == UigOp::DrawPic {
                    proof {
                        let ids = sub@;
                        lemma_dedup_facts(seq![node_id, callee] + cons_of(nodes, node_id) + cons_of(nodes, callee));
                        assert forall|t: int| 0 <= t < ids.len() implies has_node(nodes, #[trigger] ids[t]) by {
                            let all = seq![node_id, callee] + cons_of(nodes, node_id) + cons_of(nodes, callee);
                            assert(ids.contains(ids[t]));
                            assert(all.contains(ids[t]));
                            let k = choose|k: int| 0 <= k < all.len() && all[k] == ids[t];
                            if k == 0 {
                                assert(nodes[i as int].node_id == ids[t]);
                            } else if k == 1 {
                                assert(nodes[i as int].callees@[j as int] == ids[t]);
                            } else if k < 2 + cons_of(nodes, node_id).len() {
                                let f = choose|f: int| is_first(nodes, node_id, f);
                                assert(is_first(nodes, node_id, f));
                                assert(nodes[f].constructors@[k - 2] == ids[t]);
                            } else {
                                let f = choose|f: int| is_first(nodes, callee, f);
                                assert(is_first(nodes, callee, f));
                                assert(nodes[f].constructors@[k - 2 - cons_of(nodes, node_id).len()] == ids[t]);
                            }
                        }
                    }
                    let g = self.generate_dot_desc(&sub, false, Some(unit));
                    graphs.push(g);
                } else {
                    self.uigs.push(unit);
                }
                j = j + 1;
            }
            assert(mine.len() == n_callees);
            i = i + 1;
        }
        graphs
    }
}


/// Whether the first node with the id `id` is declared unsafe.
pub open spec fn unsafety_of(nodes: Seq<IsolationGraphNode>, id: u64) -> bool {
    match node_of(nodes, id) {
        Some(n) => n.node_unsafety,
        None => false,
    }
}

/// The kind of the first node with the id `id` (a plain function if none).
pub open spec fn type_of(nodes: Seq<IsolationGraphNode>, id: u64) -> usize {
    match node_of(nodes, id) {
        Some(n) => n.node_type,
        None => 2,
    }
}

/// The unsafety of a caller constructor `a` paired with that of each
/// callee constructor.
pub open spec fn callee_pairs(nodes: Seq<IsolationGraphNode>, a: bool, cs: Seq<u64>) -> Seq<(bool, bool)> {
    cs.map_values(|c: u64| (a, unsafety_of(nodes, c)))
}

/// The constructor unsafety pairs of a unit whose caller has the
/// constructors `cs`, caller constructor after caller constructor.
pub open spec fn caller_combos(nodes: Seq<IsolationGraphNode>, cs: Seq<u64>, callee_cons: Seq<u64>) -> Seq<(bool, bool)>
    decreases cs.len(),
{
    if cs.len() == 0 {
        Seq::empty()
    } else {
        caller_combos(nodes, cs.drop_last(), callee_cons) + if callee_cons.len() == 0 {
            seq![(unsafety_of(nodes, cs.last()), false)]
        } else {
            callee_pairs(nodes, unsafety_of(nodes, cs.last()), callee_cons)
        }
    }
}

/// The constructor unsafety pairs counted for one unit: one for each pair
/// of a caller and a callee constructor, where a missing side counts as
/// one safe constructor.
pub open spec fn combos(nodes: Seq<IsolationGraphNode>, caller_cons: Seq<u64>, callee_cons: Seq<u64>) -> Seq<(bool, bool)> {
    if caller_cons.len() == 0 {
        if callee_cons.len() == 0 {
            seq![(false, false)]
        } else {
            callee_pairs(nodes, false, callee_cons)
        }
    } else {
        caller_combos(nodes, caller_cons, callee_cons)
    }
}

/// The classes counted for one unit.
pub open spec fn unit_classes(nodes: Seq<IsolationGraphNode>, u: UigUnit) -> Seq<int> {
    combos(nodes, u.caller_cons@, u.callee_cons@).map_values(
        |c: (bool, bool)| uig_type_index(type_of(nodes, u.caller), type_of(nodes, u.callee), c.0, c.1),
    )
}

/// The classes counted for the units `us`, in order.
pub open spec fn class_seq(nodes: Seq<IsolationGraphNode>, us: Seq<UigUnit>) -> Seq<int>
    decreases us.len(),
{
    if us.len() == 0 {
        Seq::empty()
    } else {
        class_seq(nodes, us.drop_last()) + unit_classes(nodes, us.last())
    }
}

/// How often each of the ten classes occurs in `ks`.
pub open spec fn tally(ks: Seq<int>) -> Seq<int>
    decreases ks.len(),
{
    if ks.len() == 0 {
        Seq::new(10, |i: int| 0)
    } else {
        let t = tally(ks.drop_last());
        t.update(ks.last(), t[ks.last()] + 1)
    }
}

proof fn lemma_tally_bound(ks: Seq<int>)
    requires
        forall|t: int| 0 <= t < ks.len() ==> 0 <= #[trigger] ks[t] < 10,
    ensures
        tally(ks).len() == 10,
        forall|j: int| 0 <= j < 10 ==> 0 <= #[trigger] tally(ks)[j] <= ks.len(),
    decreases ks.len(),
{
    if ks.len() > 0 {
        lemma_tally_bound(ks.drop_last());
    }
}

/// The sum of the entries of `s`.
pub open spec fn seq_sum(s: Seq<int>) -> int
    decreases s.len(),
{
    if s.len() == 0 {
        0
    } else {
        seq_sum(s.drop_last()) + s.last()
    }
}

proof fn lemma_sum_update(s: Seq<int>, k: int, v: int)
    requires
        0 <= k < s.len(),
    ensures
        seq_sum(s.update(k, v)) == seq_sum(s) - s[k] + v,
    decreases s.len(),
{
    if k < s.len() - 1 {
        lemma_sum_update(s.drop_last(), k, v);
        assert(s.update(k, v).drop_last() =~= s.drop_last().update(k, v));
    } else {
        assert(s.update(k, v).drop_last() =~= s.drop_last());
    }
}

/// Every counted pair of constructors lands in exactly one of the ten
/// classes: the counts add up to the number of pairs.
pub proof fn lemma_type_counts_total(ks: Seq<int>)
    requires
        forall|t: int| 0 <= t < ks.len() ==> 0 <= #[trigger] ks[t] < 10,
    ensures
        seq_sum(tally(ks)) == ks.len(),
    decreases ks.len(),
{
    if ks.len() == 0 {
        let z = Seq::new(10, |i: int| 0int);
        assert(tally(ks) == z);
        reveal_with_fuel(seq_sum, 11);
    } else {
        let d = ks.drop_last();
        assert forall|t: int| 0 <= t < d.len() implies 0 <= #[trigger] d[t] < 10 by {
            assert(d[t] == ks[t]);
        }
        lemma_type_counts_total(d);
        lemma_tally_bound(d);
        let t = tally(d);
        assert(0 <= ks.last() < 10);
        lemma_sum_update(t, ks.last(), t[ks.last()] + 1);
    }
}

proof fn lemma_class_seq_prefix(nodes: Seq<IsolationGraphNode>, us: Seq<UigUnit>, i: int)
    requires
        0 <= i <= us.len(),
    ensures
        class_seq(nodes, us.take(i)).len() <= class_seq(nodes, us).len(),
    decreases us.len() - i,
{
    if i < us.len() {
        lemma_class_seq_prefix(nodes, us, i + 1);
        assert(us.take(i + 1).drop_last() =~= us.take(i));
    } else {
        assert(us.take(i) =~= us);
    }
}

proof fn lemma_classes_in_range(nodes: Seq<IsolationGraphNode>, us: Seq<UigUnit>)
    ensures
        forall|t: int| 0 <= t < class_seq(nodes, us).len() ==> 0 <= #[trigger] class_seq(nodes, us)[t] < 10,
    decreases us.len(),
{
    if us.len() > 0 {
        lemma_classes_in_range(nodes, us.drop_last());
        let a = class_seq(nodes, us.drop_last());
        let b = unit_classes(nodes, us.last());
        assert forall|t: int| 0 <= t < (a + b).len() implies 0 <= #[trigger] (a + b)[t] < 10 by {
            if t >= a.len() {
                assert(b[t - a.len()] == (a + b)[t]);
            }
        }
    }
}

impl UnsafetyIsolationCheck {
    /// The constructor unsafety pairs counted for the unit `u` (see `combos`).
    fn unit_combos(&self, u: &UigUnit) -> (res: Vec<(bool, bool)>)
        ensures
            res@ == combos(self.nodes@, u.caller_cons@, u.callee_cons@),
    {
        let mut out: Vec<(bool, bool)> = Vec::new();
        if u.caller_cons.len() == 0 {
            if u.callee_cons.len() == 0 {
                out.push((false, false));
                assert(out@ =~= seq![(false, false)]);
            } else {
                self.push_callee_pairs(&mut out, false, &u.callee_cons);
                assert(out@ =~= callee_pairs(self.nodes@, false, u.callee_cons@));
            }
        } else {
            let mut a: usize = 0;
            assert(u.caller_cons@.take(0) =~= Seq::<u64>::empty());
            while a < u.caller_cons.len()
                invariant
                    a <= u.caller_cons@.len(),
                    out@ == caller_combos(self.nodes@, u.caller_cons@.take(a as int), u.callee_cons@),
                decreases u.caller_cons@.len() - a,
            {
                proof {
                    assert(u.caller_cons@.take(a + 1).drop_last() =~= u.caller_cons@.take(a as int));
                }
                let ua = self.get_node_unsafety_by_def_id(u.caller_cons[a]);
                if u.callee_cons.len() == 0 {
                    out.push((ua, false));
                    assert(out@ =~= caller_combos(self.nodes@, u.caller_cons@.take(a + 1), u.callee_cons@));
                } else {
                    self.push_callee_pairs(&mut out, ua, &u.callee_cons);
                    assert(out@ =~= caller_combos(self.nodes@, u.caller_cons@.take(a + 1), u.callee_cons@));
                }
                a = a + 1;
            }
            assert(u.caller_cons@.take(u.caller_cons@.len() as int) =~= u.caller_cons@);
        }
        out
    }

    fn push_callee_pairs(&self, out: &mut Vec<(bool, bool)>, a: bool, cs: &Vec<u64>)
        ensures
            final(out)@ == old(out)@ + callee_pairs(self.nodes@, a, cs@),
    {
        let mut c: usize = 0;
        while c < cs.len()
            invariant
                c <= cs@.len(),
                out@ == old(out)@ + callee_pairs(self.nodes@, a, cs@.take(c as int)),
            decreases cs@.len() - c,
        {
            let uc = self.get_node_unsafety_by_def_id(cs[c]);
            out.push((a, uc));
            assert(out@ =~= old(out)@ + callee_pairs(self.nodes@, a, cs@.take(c + 1)));
            c = c + 1;
        }
        assert(cs@.take(cs@.len() as int) =~= cs@);
    }

    /// How many units of each of the ten classes the recorded units make
    /// (see `uig_type_index`): a unit counts once for each pair of a caller
    /// and a callee constructor, with the constructors' unsafety.
    pub fn uig_type_count(&self) -> (res: Vec<usize>)
        requires
            class_seq(self.nodes@, self.uigs@).len() < usize::MAX,
        ensures
            res@.len() == 10,
            forall|j: int| 0 <= j < 10 ==> #[trigger] res@[j] == tally(class_seq(self.nodes@, self.uigs@))[j],
    {
        let ghost nodes = self.nodes@;
        let ghost us = self.uigs@;
        let ghost total = class_seq(nodes, us).len();
        let mut type_vec: Vec<usize> = Vec::new();
        let mut z: usize = 0;
        while z < 10
            invariant
                z <= 10,
                type_vec@.len() == z,
                forall|j: int| 0 <= j < z ==> type_vec@[j] == 0,
            decreases 10 - z,
        {
            type_vec.push(0);
            z = z + 1;
        }
        proof {
            assert(us.take(0) =~= Seq::<UigUnit>::empty());
            lemma_classes_in_range(nodes, us);
        }
        let mut i: usize = 0;
        while i < self.uigs.len()
            invariant
                nodes == self.nodes@,
                us == self.uigs@,
                total == class_seq(nodes, us).len(),
                total < usize::MAX,
                i <= us.len(),
                type_vec@.len() == 10,
                forall|j: int| 0 <= j < 10 ==> #[trigger] type_vec@[j] == tally(class_seq(nodes, us.take(i as int)))[j],
            decreases us.len() - i,
        {
            let u = &self.uigs[i];
            let caller_type = self.get_node_type_by_def_id(u.caller);
            let callee_type = self.get_node_type_by_def_id(u.callee);
            let cs = self.unit_combos(u);
            let ghost pre = class_seq(nodes, us.take(i as int));
            let ghost mine = unit_classes(nodes, *u);
            proof {
                assert(us.take(i + 1).drop_last() =~= us.take(i as int));
                assert(class_seq(nodes, us.take(i + 1)) == pre + mine);
                lemma_class_seq_prefix(nodes, us, i + 1);
                lemma_classes_in_range(nodes, us.take(i + 1));
            }
            let mut k: usize = 0;
            while k < cs.len()
                invariant
                    nodes == self.nodes@,
                    cs@ == combos(nodes, u.caller_cons@, u.callee_cons@),
                    caller_type == type_of(nodes, u.caller),
                    callee_type == type_of(nodes, u.callee),
                    mine == unit_classes(nodes, *u),
                    (pre + mine).len() < usize::MAX,
                    forall|t: int| 0 <= t < (pre + mine).len() ==> 0 <= #[trigger] (pre + mine)[t] < 10,
                    k <= cs@.len(),
                    type_vec@.len() == 10,
                    forall|j: int| 0 <= j < 10 ==> #[trigger] type_vec@[j] == tally(pre + mine.take(k as int))[j],
                decreases cs@.len() - k,
            {
                let c = cs[k];
                proof {
                    let ks = pre + mine.take(k as int);
                    assert(ks =~= (pre + mine).take(pre.len() + k));
                    lemma_tally_bound(ks);
                    let idx = uig_type_index(caller_type, callee_type, c.0, c.1);
                    assert(mine[k as int] == idx);
                    assert(0 <= idx < 10);
                    assert(type_vec@[idx] < usize::MAX);
                }
                Self::update_type_vec(&mut type_vec, caller_type, callee_type, c.0, c.1);
                proof {
                    let ks1 = pre + mine.take(k + 1);
                    assert(ks1.drop_last() =~= pre + mine.take(k as int));
                    assert(ks1.last() == mine[k as int]);
                }
                k = k + 1;
            }
            proof {
                assert(mine.take(cs@.len() as int) =~= mine);
            }
            i = i + 1;
        }
        proof {
            assert(us.take(us.len() as int) =~= us);
        }
        type_vec
    }
}


/// The functions a node is linked to in the propagation graph.
pub open spec fn adj(n: IsolationGraphNode) -> Seq<u64> {
    n.callees@ + n.methods@ + n.callers@ + n.constructors@
}

/// Every function linked to a node is itself a node.
pub open spec fn upg_linked(nodes: Seq<IsolationGraphNode>) -> bool {
    forall|i: int, t: int|
        0 <= i < nodes.len() && is_first(nodes, nodes[i].node_id, i) && 0 <= t < adj(nodes[i]).len() ==> has_node(
            nodes,
            #[trigger] adj(nodes[i])[t],
        )
}

/// The groups `comps` split the nodes: each is a non-empty list of node
/// ids without repetition, no id is in two groups, and every node's id is
/// in one.
pub open spec fn splits_nodes(nodes: Seq<IsolationGraphNode>, comps: Seq<Seq<u64>>) -> bool {
    &&& forall|k: int| 0 <= k < comps.len() ==> (#[trigger] comps[k]).len() > 0 && comps[k].no_duplicates()
    &&& forall|k: int, t: int| 0 <= k < comps.len() && 0 <= t < comps[k].len() ==> has_node(nodes, #[trigger] comps[k][t])
    &&& forall|k1: int, k2: int, t1: int, t2: int|
        0 <= k1 < comps.len() && 0 <= k2 < comps.len() && k1 != k2 && 0 <= t1 < comps[k1].len() && 0 <= t2 < comps[k2].len()
            ==> #[trigger] comps[k1][t1] != #[trigger] comps[k2][t2]
    &&& forall|i: int| 0 <= i < nodes.len() ==> in_some(comps, #[trigger] nodes[i].node_id)
}

/// Some group holds `x`.
pub open spec fn in_some(comps: Seq<Seq<u64>>, x: u64) -> bool {
    exists|k: int, t: int| 0 <= k < comps.len() && 0 <= t < comps[k].len() && #[trigger] comps[k][t] == x
}

/// The number of the first `n` nodes whose id is not in `vis`.
pub open spec fn unvisited(nodes: Seq<IsolationGraphNode>, vis: Set<u64>, n: int) -> nat
    decreases n,
{
    if n <= 0 {
        0
    } else {
        unvisited(nodes, vis, n - 1) + if vis.contains(nodes[n - 1].node_id) {
            0nat
        } else {
            1nat
        }
    }
}

proof fn lemma_unvisited_insert(nodes: Seq<IsolationGraphNode>, vis: Set<u64>, x: u64, n: int)
    requires
        0 <= n <= nodes.len(),
    ensures
        unvisited(nodes, vis.insert(x), n) <= unvisited(nodes, vis, n),
        !vis.contains(x) && (exists|i: int| 0 <= i < n && #[trigger] nodes[i].node_id == x) ==> unvisited(nodes, vis.insert(x), n)
            < unvisited(nodes, vis, n),
    decreases n,
{
    if n > 0 {
        lemma_unvisited_insert(nodes, vis, x, n - 1);
        if !vis.contains(x) && (exists|i: int| 0 <= i < n && #[trigger] nodes[i].node_id == x) {
            let i = choose|i: int| 0 <= i < n && #[trigger] nodes[i].node_id == x;
            if i < n - 1 {
                assert(exists|j: int| 0 <= j < n - 1 && #[trigger] nodes[j].node_id == x);
            }
        }
    }
}

proof fn lemma_has_node_first(nodes: Seq<IsolationGraphNode>, id: u64)
    requires
        has_node(nodes, id),
    ensures
        exists|i: int| is_first(nodes, id, i),
    decreases nodes.len(),
{
    let d = nodes.drop_last();
    if has_node(d, id) {
        lemma_has_node_first(d, id);
        let i = choose|i: int| is_first(d, id, i);
        assert forall|j: int| 0 <= j < i implies #[trigger] nodes[j].node_id != id by {
            assert(d[j] == nodes[j]);
        }
        assert(is_first(nodes, id, i));
    } else {
        let i = choose|i: int| 0 <= i < nodes.len() && #[trigger] nodes[i].node_id == id;
        if i < nodes.len() - 1 {
            assert(d[i].node_id == id);
        }
        assert forall|j: int| 0 <= j < nodes.len() - 1 implies #[trigger] nodes[j].node_id != id by {
            assert(d[j] == nodes[j]);
        }
        assert(is_first(nodes, id, nodes.len() - 1));
    }
}

impl UnsafetyIsolationCheck {
    /// The drawings of the unsafety propagation graph, one per group of
    /// nodes: going through the nodes in order, each node not yet drawn
    /// starts a group, which takes in, depth first, every linked node not
    /// yet drawn.
    pub fn generate_upg_dot(&self) -> (res: Vec<String>)
        requires
            upg_linked(self.nodes@),
        ensures
            exists|comps: Seq<Seq<u64>>| {
                &&& splits_nodes(self.nodes@, comps)
                &&& res@.len() == comps.len()
                &&& forall|k: int| 0 <= k < comps.len() ==> (#[trigger] res@[k])@ == dot_desc(self.nodes@, comps[k], true, None)
            },
    {
        let ghost nodes = self.nodes@;
        let mut graphs: Vec<String> = Vec::new();
        let mut visited: HashSet<u64> = HashSet::new();
        let ghost mut comps: Seq<Seq<u64>> = Seq::empty();
        let mut i: usize = 0;
        while i < self.nodes.len()
            invariant
                nodes == self.nodes@,
                upg_linked(nodes),
                i <= nodes.len(),
                graphs@.len() == comps.len(),
                forall|k: int| 0 <= k < comps.len() ==> (#[trigger] graphs@[k])@ == dot_desc(nodes, comps[k], true, None),
                forall|k: int| 0 <= k < comps.len() ==> (#[trigger] comps[k]).len() > 0 && comps[k].no_duplicates(),
                forall|k: int, t: int| 0 <= k < comps.len() && 0 <= t < comps[k].len() ==> has_node(nodes, #[trigger] comps[k][t]),
                forall|k1: int, k2: int, t1: int, t2: int|
                    0 <= k1 < comps.len() && 0 <= k2 < comps.len() && k1 != k2 && 0 <= t1 < comps[k1].len() && 0 <= t2 < comps[k2].len()
                        ==> #[trigger] comps[k1][t1] != #[trigger] comps[k2][t2],
                forall|x: u64| visited@.contains(x) <==> in_some(comps, x),
                forall|j: int| 0 <= j < i ==> visited@.contains(#[trigger] nodes[j].node_id),
            decreases nodes.len() - i,
        {
            let root = self.nodes[i].node_id;
            if !visited.contains(&root) {
                let ghost vis0 = visited@;
                assert(forall|x: u64| vis0.contains(x) <==> in_some(comps, x));
                let mut stack: Vec<u64> = Vec::new();
                stack.push(root);
                let mut sub: Vec<u64> = Vec::new();
                proof {
                    assert(has_node(nodes, nodes[i as int].node_id));
                }
                while stack.len() > 0
                    invariant
                        nodes == self.nodes@,
                        upg_linked(nodes),
                        i < nodes.len(),
                        root == nodes[i as int].node_id,
                        !vis0.contains(root),
                        forall|t: int| 0 <= t < stack@.len() ==> has_node(nodes, #[trigger] stack@[t]),
                        sub@.no_duplicates(),
                        forall|t: int| 0 <= t < sub@.len() ==> has_node(nodes, #[trigger] sub@[t]),
                        forall|t: int| 0 <= t < sub@.len() ==> !vis0.contains(#[trigger] sub@[t]),
                        forall|x: u64| visited@.contains(x) <==> (vis0.contains(x) || sub@.contains(x)),
                        sub@.len() == 0 ==> stack@.len() == 1 && stack@[0] == root,
                        sub@.len() > 0 ==> sub@[0] == root,
                    decreases unvisited(nodes, visited@, nodes.len() as int), stack@.len(),
                {
                    let current = stack.pop().unwrap();
                    if !visited.contains(&current) {
                        let ghost vis_before = visited@;
                        proof {
                            let k = choose|k: int| 0 <= k < nodes.len() && #[trigger] nodes[k].node_id == current;
                            lemma_unvisited_insert(nodes, vis_before, current, nodes.len() as int);
                            if sub@.contains(current) {
                                assert(visited@.contains(current));
                            }
                        }
                        visited.insert(current);
                        let ghost s0 = sub@;
                        sub.push(current);
                        proof {
                            assert forall|a: int, b: int| 0 <= a < sub@.len() && 0 <= b < sub@.len() && a != b implies sub@[a] != sub@[b] by {
                                if a == s0.len() as int {
                                    assert(s0.contains(sub@[b]) ==> visited@.contains(sub@[b]));
                                    assert(sub@[b] == s0[b]);
                                    assert(s0.contains(s0[b]));
                                } else if b == s0.len() as int {
                                    assert(sub@[a] == s0[a]);
                                    assert(s0.contains(s0[a]));
                                }
                            }
                            assert forall|x: u64| visited@.contains(x) <==> (vis0.contains(x) || sub@.contains(x)) by {
                                if sub@.contains(x) && x != current {
                                    let t = choose|t: int| 0 <= t < sub@.len() && sub@[t] == x;
                                    assert(s0[t] == x);
                                }
                                if s0.contains(x) {
                                    let t = choose|t: int| 0 <= t < s0.len() && s0[t] == x;
                                    assert(sub@[t] == x);
                                }
                                if x == current {
                                    assert(sub@[s0.len() as int] == x);
                                }
                            }
                            lemma_has_node_first(nodes, current);
                        }
                        let adjacent = self.get_adjacent_nodes_by_def_id(current);
                        proof {
                            let f = choose|f: int| is_first(nodes, current, f);
                            lemma_first_unique(nodes, current, f);
                            assert(adjacent@ == adj(nodes[f]));
                            assert forall|t: int| 0 <= t < adjacent@.len() implies has_node(nodes, #[trigger] adjacent@[t]) by {
                                assert(adj(nodes[f])[t] == adjacent@[t]);
                            }
                        }
                        let mut a: usize = 0;
                        while a < adjacent.len()
                            invariant
                                a <= adjacent@.len(),
                                forall|t: int| 0 <= t < adjacent@.len() ==> has_node(nodes, #[trigger] adjacent@[t]),
                                forall|t: int| 0 <= t < stack@.len() ==> has_node(nodes, #[trigger] stack@[t]),
                            decreases adjacent@.len() - a,
                        {
                            if !contains_id(&sub, adjacent[a]) {
                                stack.push(adjacent[a]);
                            }
                            a = a + 1;
                        }
                    }
                }
                proof {
                    assert(sub@.len() > 0);
                }
                let g = self.generate_dot_desc(&sub, true, None);
                graphs.push(g);
                proof {
                    let old_comps = comps;
                    comps = comps.push(sub@);
                    assert forall|x: u64| visited@.contains(x) <==> in_some(comps, x) by {
                        if vis0.contains(x) {
                            let (k, t) = choose|k: int, t: int| 0 <= k < old_comps.len() && 0 <= t < old_comps[k].len() && #[trigger] old_comps[k][t] == x;
                            assert(comps[k][t] == x);
                        }
                        if sub@.contains(x) {
                            let t = choose|t: int| 0 <= t < sub@.len() && sub@[t] == x;
                            assert(comps[old_comps.len() as int][t] == x);
                        }
                        if in_some(comps, x) {
                            let (k, t) = choose|k: int, t: int| 0 <= k < comps.len() && 0 <= t < comps[k].len() && #[trigger] comps[k][t] == x;
                            if k < old_comps.len() {
                                assert(old_comps[k][t] == x);
                            } else {
                                assert(sub@[t] == x);
                            }
                        }
                    }
                    assert forall|k1: int, k2: int, t1: int, t2: int|
                        0 <= k1 < comps.len() && 0 <= k2 < comps.len() && k1 != k2 && 0 <= t1 < comps[k1].len() && 0 <= t2 < comps[k2].len()
                        implies #[trigger] comps[k1][t1] != #[trigger] comps[k2][t2] by {
                        if k1 == old_comps.len() as int {
                            assert(old_comps[k2][t2] == comps[k2][t2]);
                            assert(vis0.contains(old_comps[k2][t2]));
                        } else if k2 == old_comps.len() as int {
                            assert(old_comps[k1][t1] == comps[k1][t1]);
                            assert(vis0.contains(old_comps[k1][t1]));
                        } else {
                            assert(old_comps[k1][t1] != old_comps[k2][t2]);
                        }
                    }
                    assert(visited@.contains(root));
                }
            }
            i = i + 1;
        }
        proof {
            assert forall|j: int| 0 <= j < nodes.len() implies in_some(comps, #[trigger] nodes[j].node_id) by {
                assert(visited@.contains(nodes[j].node_id));
            }
            assert(forall|k: int| 0 <= k < comps.len() ==> (#[trigger] comps[k]).len() > 0 && comps[k].no_duplicates());
            assert(forall|k: int, t: int| 0 <= k < comps.len() && 0 <= t < comps[k].len() ==> has_node(nodes, #[trigger] comps[k][t]));
            assert(forall|k1: int, k2: int, t1: int, t2: int|
                0 <= k1 < comps.len() && 0 <= k2 < comps.len() && k1 != k2 && 0 <= t1 < comps[k1].len() && 0 <= t2 < comps[k2].len()
                    ==> #[trigger] comps[k1][t1] != #[trigger] comps[k2][t2]);
            assert(splits_nodes(nodes, comps));
        }
        graphs
    }
}

} // verus!
