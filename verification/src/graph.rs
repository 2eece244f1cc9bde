//! The semantic graph of a document: cards of `key: value` rows joined by
//! edges, built breadth first from a JSON value or an XML tree. Geometry
//! (positions and sizes) is computed by the caller from these cards.

use vstd::prelude::*;
use crate::json::{JsonV, JsonValue, bool_text, null_text, quoted};
use crate::parser::{XmlChild, XmlChildV, XmlNode, XmlNodeV, child_elems};
use crate::text::{chars_of, decimal, join, lemma_join_push, slice_chars, string_of, trim_chars, trimmed, usize_text};

verus! {

/// Node budget: once reached, the graph is marked truncated.
pub const MAX_GRAPH_NODES: usize = 3000;

/// Longest value shown in a row, in characters; longer ones end in `…`.
pub const MAX_VALUE_CHARS: usize = 60;

/// Semantic type of a row's value, used to colour it.
#[derive(Debug, Clone, Copy, PartialEq, Eq, Structural)]
pub enum ValueKind {
    String,
    Number,
    Bool,
    Null,
    /// Reference to a nested object (`{N keys}`).
    ObjectRef,
    /// Reference to a nested array (`[N items]`).
    ArrayRef,
    /// XML text (`#text`).
    Text,
}

/// A `key: value` row of a node.
#[derive(Debug, Clone)]
pub struct GraphRow {
    /// Empty for a lone scalar.
    pub key: String,
    /// Formatted and truncated value.
    pub value: String,
    pub kind: ValueKind,
}

/// A node identifier: its index in `Graph::nodes`.
pub type NodeId = usize;

/// A node: a card of rows.
#[derive(Debug, Clone)]
pub struct GraphNode {
    pub id: NodeId,
    /// Key or tag through which the node was reached.
    pub label: String,
    pub rows: Vec<GraphRow>,
    /// Layout column (0 for the root).
    pub depth: usize,
}

/// An edge from a parent to a child node.
#[derive(Debug, Clone)]
pub struct GraphEdge {
    pub from: NodeId,
    /// Row of the parent the edge leaves from, if any.
    pub from_row: Option<usize>,
    pub to: NodeId,
    /// Key, array index or XML tag.
    pub label: String,
}

/// The whole graph.
#[derive(Debug, Clone)]
pub struct Graph {
    pub nodes: Vec<GraphNode>,
    pub edges: Vec<GraphEdge>,
    /// Whether `MAX_GRAPH_NODES` was reached and the graph is incomplete.
    pub truncated: bool,
}

pub struct RowV {
    pub key: Seq<char>,
    pub value: Seq<char>,
    pub kind: ValueKind,
}

pub struct NodeV {
    pub id: nat,
    pub label: Seq<char>,
    pub rows: Seq<RowV>,
    pub depth: nat,
}

pub struct EdgeV {
    pub from: nat,
    pub from_row: Option<nat>,
    pub to: nat,
    pub label: Seq<char>,
}

pub struct GraphV {
    pub nodes: Seq<NodeV>,
    pub edges: Seq<EdgeV>,
    pub truncated: bool,
}

impl GraphRow {
    pub open spec fn view(&self) -> RowV {
        RowV { key: self.key@, value: self.value@, kind: self.kind }
    }
}

pub open spec fn rows_view(rows: Seq<GraphRow>) -> Seq<RowV> {
    Seq::new(rows.len(), |i: int| rows[i]@)
}

pub open spec fn opt_nat(o: Option<usize>) -> Option<nat> {
    match o {
        Some(x) => Some(x as nat),
        None => None,
    }
}

impl GraphNode {
    pub open spec fn view(&self) -> NodeV {
        NodeV { id: self.id as nat, label: self.label@, rows: rows_view(self.rows@), depth: self.depth as nat }
    }
}

impl GraphEdge {
    pub open spec fn view(&self) -> EdgeV {
        EdgeV { from: self.from as nat, from_row: opt_nat(self.from_row), to: self.to as nat, label: self.label@ }
    }
}

impl Graph {
    pub open spec fn view(&self) -> GraphV {
        GraphV {
            nodes: Seq::new(self.nodes@.len(), |i: int| self.nodes@[i]@),
            edges: Seq::new(self.edges@.len(), |i: int| self.edges@[i]@),
            truncated: self.truncated,
        }
    }

    /// An empty graph.
    pub fn new() -> (g: Graph)
        ensures
            g@ == empty_graph(),
            g.nodes@.len() == 0,
            g.edges@.len() == 0,
    {
        let g = Graph { nodes: Vec::new(), edges: Vec::new(), truncated: false };
        assert(g@.nodes =~= empty_graph().nodes);
        assert(g@.edges =~= empty_graph().edges);
        g
    }
}

/// The shape every built graph has: a node's id is its index, there are at
/// most `MAX_GRAPH_NODES` nodes (exactly that many when the graph is marked
/// truncated), and each edge goes from a node to one created after it (so a
/// parent always precedes its children).
pub open spec fn graph_wf(g: GraphV) -> bool {
    &&& g.nodes.len() <= MAX_GRAPH_NODES
    &&& g.truncated ==> g.nodes.len() == MAX_GRAPH_NODES
    &&& forall|i: int| 0 <= i < g.nodes.len() ==> #[trigger] g.nodes[i].id == i
    &&& forall|k: int| 0 <= k < g.edges.len() ==> #[trigger] g.edges[k].from < g.edges[k].to && g.edges[k].to < g.nodes.len()
}

pub open spec fn empty_graph() -> GraphV {
    GraphV { nodes: Seq::empty(), edges: Seq::empty(), truncated: false }
}

/// `text` cut to `max` characters, the last one replaced by `…`.
pub open spec fn truncated_text(text: Seq<char>, max: nat) -> Seq<char> {
    if text.len() <= max {
        text
    } else {
        text.take(if max >= 1 { max - 1 } else { 0 }).push('…')
    }
}

/// A cut text never exceeds the limit (for a limit of at least one
/// character); a text that was too long keeps exactly `max` characters,
/// the last being `…`, and what precedes it is the start of the text.
pub proof fn lemma_truncation_fits(text: Seq<char>, max: nat)
    requires
        max >= 1,
    ensures
        truncated_text(text, max).len() <= max,
        text.len() > max ==> {
            &&& truncated_text(text, max).len() == max
            &&& truncated_text(text, max).last() == '…'
            &&& truncated_text(text, max).drop_last() == text.take(max - 1)
        },
        text.len() <= max ==> truncated_text(text, max) == text,
{
    if text.len() > max {
        assert(truncated_text(text, max).drop_last() =~= text.take(max - 1));
    }
}

/// Cuts a text to `max` characters (not bytes), ending it in `…` when it
/// is longer.
pub fn truncate_chars(text: &str, max: usize) -> (s: String)
    ensures
        s@ == truncated_text(text@, max as nat),
{
    let v = chars_of(text);
    if v.len() <= max {
        return string_of(&v);
    }
    let keep: usize = if max >= 1 { max - 1 } else { 0 };
    let mut s = string_of(&slice_chars(&v, 0, keep));
    s.push('…');
    assert(v@.subrange(0, keep as int) =~= v@.take(keep as int));
    s
}

/// `{N keys}` for an object, `[N items]` for an array (singular for one).
pub open spec fn container_ref(count: nat, is_object: bool) -> Seq<char> {
    if is_object {
        if count == 1 {
            "{1 key}"@
        } else {
            seq!['{'] + decimal(count) + " keys}"@
        }
    } else {
        if count == 1 {
            "[1 item]"@
        } else {
            seq!['['] + decimal(count) + " items]"@
        }
    }
}

/// The text of a reference row.
pub fn container_ref_text(count: usize, is_object: bool) -> (s: String)
    ensures
        s@ == container_ref(count as nat, is_object),
{
    if is_object {
        if count == 1 {
            String::from_str("{1 key}")
        } else {
            let mut s = String::new();
            s.push('{');
            s.append(usize_text(count).as_str());
            s.append(" keys}");
            s
        }
    } else {
        if count == 1 {
            String::from_str("[1 item]")
        } else {
            let mut s = String::new();
            s.push('[');
            s.append(usize_text(count).as_str());
            s.append(" items]");
            s
        }
    }
}

/// Whether a value is shown as a row (a scalar or an empty container)
/// rather than as a node of its own.
pub open spec fn row_like(v: JsonV) -> bool {
    match v {
        JsonV::Object(m) => m.len() == 0,
        JsonV::Array(a) => a.len() == 0,
        _ => true,
    }
}

/// How a value is shown in a row.
pub open spec fn scalar_display(v: JsonV) -> (Seq<char>, ValueKind) {
    match v {
        JsonV::Null => (null_text(), ValueKind::Null),
        JsonV::Bool(b) => (bool_text(b), ValueKind::Bool),
        JsonV::Number(t) => (t, ValueKind::Number),
        JsonV::Str(s) => (truncated_text(seq!['"'] + s + seq!['"'], MAX_VALUE_CHARS as nat), ValueKind::String),
        JsonV::Object(m) => (container_ref(m.len(), true), ValueKind::ObjectRef),
        JsonV::Array(a) => (container_ref(a.len(), false), ValueKind::ArrayRef),
    }
}

pub open spec fn row_of(key: Seq<char>, v: JsonV) -> RowV {
    RowV { key, value: scalar_display(v).0, kind: scalar_display(v).1 }
}

fn is_row_like(v: &JsonValue) -> (b: bool)
    ensures
        b == row_like(v@),
{
    match v {
        JsonValue::Object(m) => m.len() == 0,
        JsonValue::Array(a) => a.len() == 0,
        _ => true,
    }
}

fn format_scalar(v: &JsonValue) -> (r: (String, ValueKind))
    ensures
        r.0@ == scalar_display(v@).0,
        r.1 == scalar_display(v@).1,
{
    match v {
        JsonValue::Null => {
            proof {
                reveal_strlit("null");
            }
            let s = String::from_str("null");
            assert(s@ =~= null_text());
            (s, ValueKind::Null)
        },
        JsonValue::Bool(b) => {
            if *b {
                proof {
                    reveal_strlit("true");
                }
                let s = String::from_str("true");
                assert(s@ =~= bool_text(true));
                (s, ValueKind::Bool)
            } else {
                proof {
                    reveal_strlit("false");
                }
                let s = String::from_str("false");
                assert(s@ =~= bool_text(false));
                (s, ValueKind::Bool)
            }
        },
        JsonValue::Number(t) => (t.clone(), ValueKind::Number),
        JsonValue::Str(s) => {
            let mut q = String::new();
            q.push('"');
            q.append(s.as_str());
            q.push('"');
            (truncate_chars(q.as_str(), MAX_VALUE_CHARS), ValueKind::String)
        },
        JsonValue::Object(m) => (container_ref_text(m.len(), true), ValueKind::ObjectRef),
        JsonValue::Array(a) => (container_ref_text(a.len(), false), ValueKind::ArrayRef),
    }
}

/// A value still to be placed: where its edge comes from, its label and
/// column, and the value itself.
pub struct PendingV<T> {
    pub from: Option<(nat, Option<nat>)>,
    pub label: Seq<char>,
    pub depth: nat,
    pub payload: T,
}

/// Allocates a node and its incoming edge; once `MAX_GRAPH_NODES` nodes
/// exist, marks the graph truncated and allocates nothing.
pub open spec fn with_node(
    g: GraphV,
    from: Option<(nat, Option<nat>)>,
    label: Seq<char>,
    depth: nat,
    rows: Seq<RowV>,
) -> (GraphV, Option<nat>) {
    if g.nodes.len() >= MAX_GRAPH_NODES {
        (GraphV { nodes: g.nodes, edges: g.edges, truncated: true }, None)
    } else {
        let id = g.nodes.len();
        let edges = match from {
            Some(f) => g.edges.push(EdgeV { from: f.0, from_row: f.1, to: id, label }),
            None => g.edges,
        };
        (
            GraphV {
                nodes: g.nodes.push(NodeV { id, label, rows, depth }),
                edges,
                truncated: g.truncated,
            },
            Some(id),
        )
    }
}

/// One row per member of an object, in key order.
pub open spec fn object_rows(m: Seq<(Seq<char>, JsonV)>) -> Seq<RowV> {
    Seq::new(m.len(), |i: int| row_of(m[i].0, m[i].1))
}

/// The members of an object that get a node of their own, each hanging from
/// its row of node `id`, one column further right.
pub open spec fn object_children(m: Seq<(Seq<char>, JsonV)>, id: nat, depth: nat) -> Seq<PendingV<JsonV>>
    decreases m.len(),
{
    if m.len() == 0 {
        Seq::empty()
    } else {
        let rest = object_children(m.drop_last(), id, depth);
        let i = m.len() - 1;
        if row_like(m[i].1) {
            rest
        } else {
            rest.push(PendingV { from: Some((id, Some(i as nat))), label: m[i].0, depth, payload: m[i].1 })
        }
    }
}

/// One row per scalar (or empty) element of an array, keyed by its index.
pub open spec fn scalar_rows(a: Seq<JsonV>) -> Seq<RowV>
    decreases a.len(),
{
    if a.len() == 0 {
        Seq::empty()
    } else {
        let rest = scalar_rows(a.drop_last());
        let i = a.len() - 1;
        if row_like(a[i]) {
            rest.push(row_of(decimal(i as nat), a[i]))
        } else {
            rest
        }
    }
}

/// Each row of an array's card is one of its scalar (or empty) elements,
/// keyed by that element's index in the array: the rows come from a
/// strictly increasing sequence of indices that takes in every such
/// element, and row `k` shows element `ix[k]` under the key `ix[k]`.
pub proof fn lemma_scalar_rows_keyed_by_index(a: Seq<JsonV>) -> (ix: Seq<int>)
    ensures
        ix.len() == scalar_rows(a).len(),
        forall|k: int| 0 <= k < ix.len() ==> 0 <= #[trigger] ix[k] < a.len() && row_like(a[ix[k]]),
        forall|k: int|
            0 <= k < ix.len() ==> #[trigger] scalar_rows(a)[k] == row_of(decimal(ix[k] as nat), a[ix[k]]),
        forall|k1: int, k2: int| 0 <= k1 < k2 < ix.len() ==> #[trigger] ix[k1] < #[trigger] ix[k2],
        forall|i: int| 0 <= i < a.len() && row_like(#[trigger] a[i]) ==> ix.contains(i),
    decreases a.len(),
{
    if a.len() == 0 {
        Seq::empty()
    } else {
        let init = a.drop_last();
        let ix0 = lemma_scalar_rows_keyed_by_index(init);
        let n = a.len() - 1;
        assert forall|i: int| 0 <= i < init.len() implies #[trigger] init[i] == a[i] by {}
        if row_like(a[n]) {
            let ix = ix0.push(n);
            assert forall|k: int| 0 <= k < ix.len() implies #[trigger] scalar_rows(a)[k] == row_of(
                decimal(ix[k] as nat),
                a[ix[k]],
            ) by {
                if k < ix0.len() {
                    assert(scalar_rows(a)[k] == scalar_rows(init)[k]);
                }
            }
            assert forall|i: int| 0 <= i < a.len() && row_like(#[trigger] a[i]) implies ix.contains(i) by {
                if i < n {
                    assert(init[i] == a[i]);
                    let k = choose|k: int| 0 <= k < ix0.len() && ix0[k] == i;
                    assert(ix[k] == i);
                } else {
                    assert(ix[ix.len() - 1] == i);
                }
            }
            ix
        } else {
            assert forall|i: int| 0 <= i < a.len() && row_like(#[trigger] a[i]) implies ix0.contains(i) by {
                assert(init[i] == a[i]);
            }
            ix0
        }
    }
}

/// The elements of an array that get a node of their own; they hang from
/// the array's own anchor, in the array's column.
pub open spec fn array_children(a: Seq<JsonV>, from: Option<(nat, Option<nat>)>, depth: nat) -> Seq<PendingV<JsonV>>
    decreases a.len(),
{
    if a.len() == 0 {
        Seq::empty()
    } else {
        let rest = array_children(a.drop_last(), from, depth);
        let i = a.len() - 1;
        if row_like(a[i]) {
            rest
        } else {
            rest.push(PendingV { from, label: decimal(i as nat), depth, payload: a[i] })
        }
    }
}

/// A node with a single row for a lone scalar or an empty container.
pub open spec fn lone_value(g: GraphV, p: PendingV<JsonV>) -> GraphV {
    with_node(g, p.from, p.label, p.depth, seq![row_of(Seq::empty(), p.payload)]).0
}

/// Places one pending value: the graph after it, and the values it leaves
/// pending.
///
/// A non-empty object is a node with one row per member and a child per
/// member that is a non-empty container. A non-empty array is a node
/// grouping its scalar elements (when it has any) and a child per container
/// element. Anything else is a single row.
pub open spec fn json_step(g: GraphV, p: PendingV<JsonV>) -> (GraphV, Seq<PendingV<JsonV>>) {
    match p.payload {
        JsonV::Object(m) => if m.len() > 0 {
            let (g1, id) = with_node(g, p.from, p.label, p.depth, object_rows(m));
            match id {
                Some(id) => (g1, object_children(m, id, p.depth + 1)),
                None => (g1, Seq::empty()),
            }
        } else {
            (lone_value(g, p), Seq::empty())
        },
        JsonV::Array(a) => if a.len() > 0 {
            let rows = scalar_rows(a);
            let g1 = if rows.len() > 0 {
                with_node(g, p.from, p.label, p.depth, rows).0
            } else {
                g
            };
            (g1, array_children(a, p.from, p.depth))
        } else {
            (lone_value(g, p), Seq::empty())
        },
        _ => (lone_value(g, p), Seq::empty()),
    }
}

/// Places a whole generation of pending values in order; the values they
/// leave pending form the next generation.
pub open spec fn json_gen(g: GraphV, gen: Seq<PendingV<JsonV>>) -> (GraphV, Seq<PendingV<JsonV>>)
    decreases gen.len(),
{
    if gen.len() == 0 {
        (g, Seq::empty())
    } else {
        let (g1, n1) = json_gen(g, gen.drop_last());
        let (g2, c) = json_step(g1, gen.last());
        (g2, n1 + c)
    }
}

/// Breadth-first placement, one generation after another (the order in
/// which a first-in first-out queue takes them).
pub open spec fn json_bfs(g: GraphV, gen: Seq<PendingV<JsonV>>, fuel: nat) -> GraphV
    decreases fuel,
{
    if gen.len() == 0 || fuel == 0 {
        g
    } else {
        let (g1, next) = json_gen(g, gen);
        json_bfs(g1, next, (fuel - 1) as nat)
    }
}

/// Nesting depth of a value (0 for a scalar).
pub open spec fn json_height(v: JsonV) -> nat
    decreases v,
{
    match v {
        JsonV::Array(a) => 1 + items_height(a),
        JsonV::Object(m) => 1 + members_height(m),
        _ => 0,
    }
}

pub open spec fn items_height(a: Seq<JsonV>) -> nat
    decreases a,
{
    if a.len() == 0 {
        0
    } else {
        let h = json_height(a[a.len() - 1]);
        let r = items_height(a.subrange(0, a.len() - 1));
        if h >= r { h } else { r }
    }
}

pub open spec fn members_height(m: Seq<(Seq<char>, JsonV)>) -> nat
    decreases m,
{
    if m.len() == 0 {
        0
    } else {
        let h = json_height(m[m.len() - 1].1);
        let r = members_height(m.subrange(0, m.len() - 1));
        if h >= r { h } else { r }
    }
}

pub proof fn lemma_items_height(a: Seq<JsonV>, i: int)
    requires
        0 <= i < a.len(),
    ensures
        json_height(a[i]) <= items_height(a),
    decreases a.len(),
{
    if i < a.len() - 1 {
        lemma_items_height(a.subrange(0, a.len() - 1), i);
    }
}

pub proof fn lemma_members_height(m: Seq<(Seq<char>, JsonV)>, i: int)
    requires
        0 <= i < m.len(),
    ensures
        json_height(m[i].1) <= members_height(m),
    decreases m.len(),
{
    if i < m.len() - 1 {
        lemma_members_height(m.subrange(0, m.len() - 1), i);
    }
}

pub open spec fn root_pending(v: JsonV) -> PendingV<JsonV> {
    PendingV { from: None, label: Seq::empty(), depth: 0, payload: v }
}

/// The graph of a JSON value.
pub open spec fn json_graph(v: JsonV) -> GraphV {
    json_bfs(empty_graph(), seq![root_pending(v)], json_height(v) + 1)
}

/// Every edge joins two nodes, its child one column right of its parent,
/// and leaves from a row that its parent has (when it leaves from a row);
/// the edges' children come in increasing order, so no node has two
/// parents.
pub open spec fn edges_sound(g: GraphV) -> bool {
    &&& forall|k: int|
        0 <= k < g.edges.len() ==> {
            let e = #[trigger] g.edges[k];
            &&& e.from < g.nodes.len() && e.to < g.nodes.len()
            &&& g.nodes[e.to as int].depth == g.nodes[e.from as int].depth + 1
            &&& e.from_row matches Some(r) ==> r < g.nodes[e.from as int].rows.len()
        }
    &&& forall|k1: int, k2: int| 0 <= k1 < k2 < g.edges.len() ==> #[trigger] g.edges[k1].to < #[trigger] g.edges[k2].to
}

/// An anchor that an edge may leave from toward a node in column `depth`.
pub open spec fn anchor_fits(g: GraphV, from: Option<(nat, Option<nat>)>, depth: nat) -> bool {
    from matches Some(f) ==> {
        &&& f.0 < g.nodes.len()
        &&& g.nodes[f.0 as int].depth + 1 == depth
        &&& f.1 matches Some(r) ==> r < g.nodes[f.0 as int].rows.len()
    }
}

/// `h` keeps the nodes of `g`, perhaps with more after them.
pub open spec fn nodes_extend(g: GraphV, h: GraphV) -> bool {
    &&& g.nodes.len() <= h.nodes.len()
    &&& forall|i: int| 0 <= i < g.nodes.len() ==> #[trigger] h.nodes[i] == g.nodes[i]
}

proof fn lemma_anchor_kept(g: GraphV, h: GraphV, from: Option<(nat, Option<nat>)>, depth: nat)
    requires
        anchor_fits(g, from, depth),
        nodes_extend(g, h),
    ensures
        anchor_fits(h, from, depth),
{
    if let Some(f) = from {
        assert(h.nodes[f.0 as int] == g.nodes[f.0 as int]);
    }
}

proof fn lemma_with_node_sound(g: GraphV, from: Option<(nat, Option<nat>)>, label: Seq<char>, depth: nat, rows: Seq<RowV>)
    requires
        edges_sound(g),
        anchor_fits(g, from, depth),
    ensures
        edges_sound(with_node(g, from, label, depth, rows).0),
        nodes_extend(g, with_node(g, from, label, depth, rows).0),
        with_node(g, from, label, depth, rows).1 matches Some(id) ==> {
            let h = with_node(g, from, label, depth, rows).0;
            &&& id == g.nodes.len()
            &&& id < h.nodes.len()
            &&& h.nodes[id as int].depth == depth
            &&& h.nodes[id as int].rows == rows
        },
{
    let h = with_node(g, from, label, depth, rows).0;
    if g.nodes.len() < MAX_GRAPH_NODES {
        let id = g.nodes.len();
        assert forall|i: int| 0 <= i < g.nodes.len() implies #[trigger] h.nodes[i] == g.nodes[i] by {}
        assert forall|k: int| 0 <= k < h.edges.len() implies {
            let e = #[trigger] h.edges[k];
            &&& e.from < h.nodes.len() && e.to < h.nodes.len()
            &&& h.nodes[e.to as int].depth == h.nodes[e.from as int].depth + 1
            &&& e.from_row matches Some(r) ==> r < h.nodes[e.from as int].rows.len()
        } by {
            if k < g.edges.len() {
                assert(h.edges[k] == g.edges[k]);
                let e = g.edges[k];
                assert(h.nodes[e.to as int] == g.nodes[e.to as int]);
                assert(h.nodes[e.from as int] == g.nodes[e.from as int]);
            } else {
                let f = from->Some_0;
                assert(h.nodes[f.0 as int] == g.nodes[f.0 as int]);
            }
        }
        assert forall|k1: int, k2: int| 0 <= k1 < k2 < h.edges.len() implies #[trigger] h.edges[k1].to
            < #[trigger] h.edges[k2].to by {
            assert(h.edges[k1] == g.edges[k1]);
            if k2 < g.edges.len() {
                assert(h.edges[k2] == g.edges[k2]);
            }
        }
    }
}

proof fn lemma_object_children_fit(m: Seq<(Seq<char>, JsonV)>, id: nat, depth: nat)
    ensures
        forall|k: int|
            0 <= k < object_children(m, id, depth).len() ==> {
                let c = #[trigger] object_children(m, id, depth)[k];
                &&& c.depth == depth
                &&& c.from is Some && c.from->Some_0.0 == id
                &&& c.from->Some_0.1 is Some && c.from->Some_0.1->Some_0 < m.len()
            },
    decreases m.len(),
{
    if m.len() > 0 {
        lemma_object_children_fit(m.drop_last(), id, depth);
    }
}

proof fn lemma_array_children_fit(a: Seq<JsonV>, from: Option<(nat, Option<nat>)>, depth: nat)
    ensures
        forall|k: int|
            0 <= k < array_children(a, from, depth).len() ==> {
                let c = #[trigger] array_children(a, from, depth)[k];
                c.depth == depth && c.from == from
            },
    decreases a.len(),
{
    if a.len() > 0 {
        lemma_array_children_fit(a.drop_last(), from, depth);
    }
}

proof fn lemma_json_step_sound(g: GraphV, p: PendingV<JsonV>)
    requires
        edges_sound(g),
        anchor_fits(g, p.from, p.depth),
    ensures
        edges_sound(json_step(g, p).0),
        nodes_extend(g, json_step(g, p).0),
        forall|k: int|
            0 <= k < json_step(g, p).1.len() ==> anchor_fits(
                json_step(g, p).0,
                (#[trigger] json_step(g, p).1[k]).from,
                json_step(g, p).1[k].depth,
            ),
{
    let (g1, next) = json_step(g, p);
    match p.payload {
        JsonV::Object(m) => {
            lemma_with_node_sound(g, p.from, p.label, p.depth, object_rows(m));
            lemma_with_node_sound(g, p.from, p.label, p.depth, seq![row_of(Seq::empty(), p.payload)]);
            if m.len() > 0 {
                let id = with_node(g, p.from, p.label, p.depth, object_rows(m)).1;
                if let Some(id) = id {
                    lemma_object_children_fit(m, id, p.depth + 1);
                }
            }
        },
        JsonV::Array(a) => {
            lemma_with_node_sound(g, p.from, p.label, p.depth, scalar_rows(a));
            lemma_with_node_sound(g, p.from, p.label, p.depth, seq![row_of(Seq::empty(), p.payload)]);
            if a.len() > 0 {
                lemma_array_children_fit(a, p.from, p.depth);
                lemma_anchor_kept(g, g1, p.from, p.depth);
            }
        },
        _ => {
            lemma_with_node_sound(g, p.from, p.label, p.depth, seq![row_of(Seq::empty(), p.payload)]);
        },
    }
}

proof fn lemma_json_gen_sound(g: GraphV, gen: Seq<PendingV<JsonV>>)
    requires
        edges_sound(g),
        forall|k: int| 0 <= k < gen.len() ==> anchor_fits(g, (#[trigger] gen[k]).from, gen[k].depth),
    ensures
        edges_sound(json_gen(g, gen).0),
        nodes_extend(g, json_gen(g, gen).0),
        forall|k: int|
            0 <= k < json_gen(g, gen).1.len() ==> anchor_fits(
                json_gen(g, gen).0,
                (#[trigger] json_gen(g, gen).1[k]).from,
                json_gen(g, gen).1[k].depth,
            ),
    decreases gen.len(),
{
    if gen.len() > 0 {
        let init = gen.drop_last();
        assert forall|k: int| 0 <= k < init.len() implies anchor_fits(g, (#[trigger] init[k]).from, init[k].depth) by {
            assert(init[k] == gen[k]);
        }
        lemma_json_gen_sound(g, init);
        let (g1, n1) = json_gen(g, init);
        lemma_anchor_kept(g, g1, gen.last().from, gen.last().depth);
        lemma_json_step_sound(g1, gen.last());
        let (g2, c) = json_step(g1, gen.last());
        assert forall|k: int| 0 <= k < (n1 + c).len() implies anchor_fits(g2, (#[trigger] (n1 + c)[k]).from, (n1 + c)[k].depth) by {
            if k < n1.len() {
                lemma_anchor_kept(g1, g2, n1[k].from, n1[k].depth);
            } else {
                assert((n1 + c)[k] == c[k - n1.len()]);
            }
        }
    }
}

proof fn lemma_json_bfs_sound(g: GraphV, gen: Seq<PendingV<JsonV>>, fuel: nat)
    requires
        edges_sound(g),
        forall|k: int| 0 <= k < gen.len() ==> anchor_fits(g, (#[trigger] gen[k]).from, gen[k].depth),
    ensures
        edges_sound(json_bfs(g, gen, fuel)),
    decreases fuel,
{
    if gen.len() > 0 && fuel > 0 {
        lemma_json_gen_sound(g, gen);
        let (g1, next) = json_gen(g, gen);
        lemma_json_bfs_sound(g1, next, (fuel - 1) as nat);
    }
}

/// In the graph of a JSON value every edge joins a node to a node one
/// column further right, leaves from a row its parent has, and no node has
/// two parents.
pub proof fn lemma_json_graph_edges(v: JsonV)
    ensures
        edges_sound(json_graph(v)),
{
    let gen = seq![root_pending(v)];
    assert forall|k: int| 0 <= k < gen.len() implies anchor_fits(empty_graph(), (#[trigger] gen[k]).from, gen[k].depth) by {}
    lemma_json_bfs_sound(empty_graph(), gen, json_height(v) + 1);
}

/// A value to place: exec form of `PendingV`.
struct Pending<'a, T> {
    from: Option<(usize, Option<usize>)>,
    label: String,
    depth: usize,
    payload: &'a T,
}

/// The anchor of a pending value is an existing node.
spec fn anchored(f: Option<(usize, Option<usize>)>, n: nat) -> bool {
    f matches Some(a) ==> a.0 < n
}

spec fn from_view(f: Option<(usize, Option<usize>)>) -> Option<(nat, Option<nat>)> {
    match f {
        Some(p) => Some((p.0 as nat, opt_nat(p.1))),
        None => None,
    }
}

spec fn jp_view(p: Pending<JsonValue>) -> PendingV<JsonV> {
    PendingV { from: from_view(p.from), label: p.label@, depth: p.depth as nat, payload: p.payload@ }
}

spec fn jps_view(ps: Seq<Pending<JsonValue>>) -> Seq<PendingV<JsonV>> {
    Seq::new(ps.len(), |i: int| jp_view(ps[i]))
}

/// Allocates a node (and its incoming edge) unless the budget is spent.
#[verifier::spinoff_prover]
fn alloc_node(
    graph: &mut Graph,
    from: Option<(usize, Option<usize>)>,
    label: &String,
    depth: usize,
    rows: Vec<GraphRow>,
) -> (id: Option<usize>)
    requires
        old(graph).nodes@.len() <= MAX_GRAPH_NODES,
        graph_wf(old(graph)@),
        anchored(from, old(graph).nodes@.len() as nat),
    ensures
        final(graph)@ == with_node(old(graph)@, from_view(from), label@, depth as nat, rows_view(rows@)).0,
        opt_nat(id) == with_node(old(graph)@, from_view(from), label@, depth as nat, rows_view(rows@)).1,
        final(graph).nodes@.len() <= MAX_GRAPH_NODES,
        final(graph).nodes@.len() >= old(graph).nodes@.len(),
        graph_wf(final(graph)@),
        id matches Some(i) ==> i < final(graph).nodes@.len(),
{
    let ghost g = graph@;
    if graph.nodes.len() >= MAX_GRAPH_NODES {
        graph.truncated = true;
        assert(graph@.nodes =~= g.nodes);
        assert(graph@.edges =~= g.edges);
        return None;
    }
    let id = graph.nodes.len();
    graph.nodes.push(GraphNode { id, label: label.clone(), rows, depth });
    match from {
        Some((f, fr)) => {
            graph.edges.push(GraphEdge { from: f, from_row: fr, to: id, label: label.clone() });
        },
        None => {},
    }
    let ghost want = with_node(g, from_view(from), label@, depth as nat, rows_view(rows@)).0;
    assert(graph@.nodes =~= want.nodes);
    assert(graph@.edges =~= want.edges);
    proof {
        lemma_with_node_wf(g, from_view(from), label@, depth as nat, rows_view(rows@));
    }
    Some(id)
}

proof fn lemma_with_node_wf(g: GraphV, from: Option<(nat, Option<nat>)>, label: Seq<char>, depth: nat, rows: Seq<RowV>)
    requires
        graph_wf(g),
        g.nodes.len() < MAX_GRAPH_NODES,
        from matches Some(f) ==> f.0 < g.nodes.len(),
    ensures
        graph_wf(with_node(g, from, label, depth, rows).0),
{
    let h = with_node(g, from, label, depth, rows).0;
    let id = g.nodes.len();
    assert forall|i: int| 0 <= i < h.nodes.len() implies #[trigger] h.nodes[i].id == i by {
        if i < id {
            assert(h.nodes[i] == g.nodes[i]);
        }
    }
    assert forall|k: int| 0 <= k < h.edges.len() implies #[trigger] h.edges[k].from < h.edges[k].to && h.edges[k].to
        < h.nodes.len() by {
        if k < g.edges.len() {
            assert(h.edges[k] == g.edges[k]);
        }
    }
}

fn lone_row(v: &JsonValue) -> (rows: Vec<GraphRow>)
    ensures
        rows_view(rows@) == seq![row_of(Seq::empty(), v@)],
{
    let (value, kind) = format_scalar(v);
    let mut rows: Vec<GraphRow> = Vec::new();
    rows.push(GraphRow { key: String::new(), value, kind });
    assert(rows_view(rows@) =~= seq![row_of(Seq::empty(), v@)]);
    rows
}

/// Places one pending value, pushing the values it leaves pending.
fn json_place<'a>(graph: &mut Graph, p: &Pending<'a, JsonValue>, next: &mut Vec<Pending<'a, JsonValue>>)
    requires
        old(graph).nodes@.len() <= MAX_GRAPH_NODES,
        p.depth + json_height(p.payload@) < usize::MAX,
        graph_wf(old(graph)@),
        anchored(p.from, old(graph).nodes@.len() as nat),
    ensures
        graph_wf(final(graph)@),
        final(graph).nodes@.len() >= old(graph).nodes@.len(),
        forall|k: int| old(next)@.len() <= k < final(next)@.len() ==> anchored((#[trigger] final(next)@[k]).from, final(graph).nodes@.len() as nat),
        final(graph).nodes@.len() <= MAX_GRAPH_NODES,
        (final(graph)@, jps_view(final(next)@)) == ({
            let (g1, c) = json_step(old(graph)@, jp_view(*p));
            (g1, jps_view(old(next)@) + c)
        }),
        forall|k: int|
            old(next)@.len() <= k < final(next)@.len() ==> {
                &&& json_height((#[trigger] final(next)@[k]).payload@) < json_height(p.payload@)
                &&& final(next)@[k].depth + json_height(final(next)@[k].payload@) <= p.depth + json_height(p.payload@)
            },
        forall|k: int| 0 <= k < old(next)@.len() ==> #[trigger] final(next)@[k] == old(next)@[k],
{
    let ghost pv = jp_view(*p);
    let ghost n0 = next@;
    let payload: &'a JsonValue = p.payload;
    match payload {
        JsonValue::Object(m) => {
            if m.len() > 0 {
                let ghost mv = payload@->Object_0;
                let mut rows: Vec<GraphRow> = Vec::new();
                let mut i: usize = 0;
                while i < m.len()
                    invariant
                        i <= m.len(),
                        mv == payload@->Object_0,
                        payload@ == JsonV::Object(mv),
                        mv.len() == m.len(),
                        forall|k: int| 0 <= k < m.len() ==> #[trigger] mv[k] == (m@[k].0@, m@[k].1@),
                        rows_view(rows@) == object_rows(mv).take(i as int),
                    decreases m.len() - i,
                {
                    let ghost before = rows@;
                    let (value, kind) = format_scalar(&m[i].1);
                    let key = m[i].0.clone();
                    rows.push(GraphRow { key, value, kind });
                    assert(mv[i as int] == (m@[i as int].0@, m@[i as int].1@));
                    assert(rows_view(rows@) =~= rows_view(before).push(row_of(mv[i as int].0, mv[i as int].1)));
                    i = i + 1;
                    assert(rows_view(rows@) =~= object_rows(mv).take(i as int));
                }
                assert(object_rows(mv).take(m.len() as int) =~= object_rows(mv));
                let id = alloc_node(graph, p.from, &p.label, p.depth, rows);
                match id {
                    Some(id) => {
                        let mut j: usize = 0;
                        assert(mv.take(0) =~= Seq::<(Seq<char>, JsonV)>::empty());
                        assert(jps_view(next@) =~= jps_view(n0) + object_children(mv.take(0), id as nat, p.depth as nat + 1));
                        while j < m.len()
                            invariant
                                j <= m.len(),
                                mv == payload@->Object_0,
                                payload@ == JsonV::Object(mv),
                                mv.len() == m.len(),
                                forall|k: int| 0 <= k < m.len() ==> #[trigger] mv[k] == (m@[k].0@, m@[k].1@),
                                p.depth + json_height(payload@) < usize::MAX,
                                jps_view(next@) == jps_view(n0) + object_children(mv.take(j as int), id as nat, p.depth as nat + 1),
                                id < graph.nodes@.len(),
                                forall|k: int| n0.len() <= k < next@.len() ==> anchored((#[trigger] next@[k]).from, graph.nodes@.len() as nat),
                                next@.len() >= n0.len(),
                                forall|k: int| 0 <= k < n0.len() ==> #[trigger] next@[k] == n0[k],
                                forall|k: int|
                                    n0.len() <= k < next@.len() ==> {
                                        &&& json_height((#[trigger] next@[k]).payload@) < json_height(payload@)
                                        &&& next@[k].depth + json_height(next@[k].payload@) <= p.depth + json_height(payload@)
                                    },
                            decreases m.len() - j,
                        {
                            let ghost before = next@;
                            assert(mv.take(j + 1).drop_last() =~= mv.take(j as int));
                            if !is_row_like(&m[j].1) {
                                proof {
                                    lemma_members_height(mv, j as int);
                                }
                                let child: &'a JsonValue = &m[j].1;
                                next.push(Pending { from: Some((id, Some(j))), label: m[j].0.clone(), depth: p.depth + 1, payload: child });
                                assert(jps_view(next@) =~= jps_view(before).push(jp_view(next@[next@.len() - 1])));
                            }
                            j = j + 1;
                        }
                        assert(mv.take(m.len() as int) =~= mv);
                    },
                    None => {
                        assert(jps_view(next@) =~= jps_view(n0) + Seq::<PendingV<JsonV>>::empty());
                    },
                }
            } else {
                let rows = lone_row(payload);
                alloc_node(graph, p.from, &p.label, p.depth, rows);
                assert(jps_view(next@) =~= jps_view(n0) + Seq::<PendingV<JsonV>>::empty());
            }
        },
        JsonValue::Array(a) => {
            if a.len() > 0 {
                let ghost av = payload@->Array_0;
                let mut rows: Vec<GraphRow> = Vec::new();
                let mut i: usize = 0;
                assert(av.take(0) =~= Seq::<JsonV>::empty());
                assert(rows_view(rows@) =~= scalar_rows(av.take(0)));
                while i < a.len()
                    invariant
                        i <= a.len(),
                        av == payload@->Array_0,
                        av.len() == a.len(),
                        forall|k: int| 0 <= k < a.len() ==> #[trigger] av[k] == a@[k]@,
                        rows_view(rows@) == scalar_rows(av.take(i as int)),
                    decreases a.len() - i,
                {
                    assert(av.take(i + 1).drop_last() =~= av.take(i as int));
                    if is_row_like(&a[i]) {
                        let (value, kind) = format_scalar(&a[i]);
                        let ghost before = rows@;
                        rows.push(GraphRow { key: usize_text(i), value, kind });
                        assert(rows_view(rows@) =~= rows_view(before).push(row_of(decimal(i as nat), av[i as int])));
                    }
                    i = i + 1;
                }
                assert(av.take(a.len() as int) =~= av);
                if rows.len() > 0 {
                    alloc_node(graph, p.from, &p.label, p.depth, rows);
                }
                let mut j: usize = 0;
                assert(jps_view(next@) =~= jps_view(n0) + array_children(av.take(0), from_view(p.from), p.depth as nat));
                while j < a.len()
                    invariant
                        j <= a.len(),
                        av == payload@->Array_0,
                        payload@ == JsonV::Array(av),
                        av.len() == a.len(),
                        forall|k: int| 0 <= k < a.len() ==> #[trigger] av[k] == a@[k]@,
                        p.depth + json_height(payload@) < usize::MAX,
                        jps_view(next@) == jps_view(n0) + array_children(av.take(j as int), from_view(p.from), p.depth as nat),
                        anchored(p.from, graph.nodes@.len() as nat),
                        forall|k: int| n0.len() <= k < next@.len() ==> anchored((#[trigger] next@[k]).from, graph.nodes@.len() as nat),
                        next@.len() >= n0.len(),
                        forall|k: int| 0 <= k < n0.len() ==> #[trigger] next@[k] == n0[k],
                        forall|k: int|
                            n0.len() <= k < next@.len() ==> {
                                &&& json_height((#[trigger] next@[k]).payload@) < json_height(payload@)
                                &&& next@[k].depth + json_height(next@[k].payload@) <= p.depth + json_height(payload@)
                            },
                    decreases a.len() - j,
                {
                    let ghost before = next@;
                    assert(av.take(j + 1).drop_last() =~= av.take(j as int));
                    if !is_row_like(&a[j]) {
                        proof {
                            lemma_items_height(av, j as int);
                        }
                        let child: &'a JsonValue = &a[j];
                        next.push(Pending { from: p.from, label: usize_text(j), depth: p.depth, payload: child });
                        assert(jps_view(next@) =~= jps_view(before).push(jp_view(next@[next@.len() - 1])));
                    }
                    j = j + 1;
                }
                assert(av.take(a.len() as int) =~= av);
            } else {
                let rows = lone_row(payload);
                alloc_node(graph, p.from, &p.label, p.depth, rows);
                assert(jps_view(next@) =~= jps_view(n0) + Seq::<PendingV<JsonV>>::empty());
            }
        },
        _ => {
            let rows = lone_row(payload);
            alloc_node(graph, p.from, &p.label, p.depth, rows);
            assert(jps_view(next@) =~= jps_view(n0) + Seq::<PendingV<JsonV>>::empty());
        },
    }
}

/// Builds the graph of a JSON value breadth first. Objects give a node with
/// one row per member and a child node per non-empty nested container;
/// arrays give one node grouping their scalars and a child per nested
/// container; a node budget of `MAX_GRAPH_NODES` keeps the shallow levels.
pub fn build_json_graph(value: &JsonValue) -> (g: Graph)
    requires
        json_height(value@) < usize::MAX,
    ensures
        g@ == json_graph(value@),
        graph_wf(g@),
        edges_sound(g@),
{
    let mut graph = Graph::new();
    let mut gen: Vec<Pending<JsonValue>> = Vec::new();
    gen.push(Pending { from: None, label: String::new(), depth: 0, payload: value });
    let ghost h = json_height(value@);
    let ghost mut fuel: nat = h + 1;
    assert(jps_view(gen@) =~= seq![root_pending(value@)]);
    while gen.len() > 0
        invariant
            h == json_height(value@),
            h < usize::MAX,
            graph_wf(graph@),
            forall|k: int| 0 <= k < gen@.len() ==> anchored((#[trigger] gen@[k]).from, graph.nodes@.len() as nat),
            graph.nodes@.len() <= MAX_GRAPH_NODES,
            json_bfs(graph@, jps_view(gen@), fuel) == json_graph(value@),
            forall|k: int|
                0 <= k < gen@.len() ==> {
                    &&& json_height((#[trigger] gen@[k]).payload@) < fuel
                    &&& gen@[k].depth + json_height(gen@[k].payload@) <= h
                },
        decreases fuel,
    {
        let ghost g0 = graph@;
        let ghost gv = jps_view(gen@);
        assert(fuel > 0) by {
            assert(json_height(gen@[0].payload@) < fuel);
        }
        let mut next: Vec<Pending<JsonValue>> = Vec::new();
        let mut k: usize = 0;
        assert(gv.take(0) =~= Seq::<PendingV<JsonV>>::empty());
        assert(jps_view(next@) =~= Seq::<PendingV<JsonV>>::empty());
        while k < gen.len()
            invariant
                k <= gen.len(),
                gv == jps_view(gen@),
                h < usize::MAX,
                graph_wf(graph@),
                forall|m: int| 0 <= m < gen@.len() ==> anchored((#[trigger] gen@[m]).from, graph.nodes@.len() as nat),
                forall|m: int| 0 <= m < next@.len() ==> anchored((#[trigger] next@[m]).from, graph.nodes@.len() as nat),
                graph.nodes@.len() <= MAX_GRAPH_NODES,
                json_gen(g0, gv.take(k as int)) == (graph@, jps_view(next@)),
                forall|m: int|
                    0 <= m < gen@.len() ==> {
                        &&& json_height((#[trigger] gen@[m]).payload@) < fuel
                        &&& gen@[m].depth + json_height(gen@[m].payload@) <= h
                    },
                forall|m: int|
                    0 <= m < next@.len() ==> {
                        &&& json_height((#[trigger] next@[m]).payload@) + 1 < fuel
                        &&& next@[m].depth + json_height(next@[m].payload@) <= h
                    },
            decreases gen.len() - k,
        {
            let ghost gk = graph@;
            let ghost nk = jps_view(next@);
            assert(gv.take(k + 1).drop_last() =~= gv.take(k as int));
            assert(gv[k as int] == jp_view(gen@[k as int]));
            json_place(&mut graph, &gen[k], &mut next);
            k = k + 1;
        }
        assert(gv.take(gen.len() as int) =~= gv);
        gen = next;
        proof {
            fuel = (fuel - 1) as nat;
        }
    }
    assert(jps_view(gen@) =~= Seq::<PendingV<JsonV>>::empty());
    proof {
        lemma_json_graph_edges(value@);
    }
    graph
}


// XML

/// The trimmed, non-blank text fragments among the children, in order.
pub open spec fn text_parts(cs: Seq<XmlChildV>) -> Seq<Seq<char>>
    decreases cs.len(),
{
    if cs.len() == 0 {
        Seq::empty()
    } else {
        let rest = text_parts(cs.drop_last());
        match cs.last() {
            XmlChildV::Text(t) => if trimmed(t).len() > 0 {
                rest.push(trimmed(t))
            } else {
                rest
            },
            XmlChildV::Node(_) => rest,
        }
    }
}

/// The direct text of an element as a card shows it: the trimmed fragments
/// joined by single spaces.
pub open spec fn node_text(n: XmlNodeV) -> Seq<char> {
    join(text_parts(n.children), seq![' '])
}

/// The first group with the given tag.
pub open spec fn group_index(groups: Seq<(Seq<char>, nat)>, tag: Seq<char>) -> Option<nat>
    decreases groups.len(),
{
    if groups.len() == 0 {
        None
    } else {
        match group_index(groups.drop_last(), tag) {
            Some(k) => Some(k),
            None => if groups.last().0 == tag {
                Some((groups.len() - 1) as nat)
            } else {
                None
            },
        }
    }
}

/// The element children grouped by tag, each group with its size, in the
/// order in which each tag first appears.
pub open spec fn tag_groups(elems: Seq<XmlNodeV>) -> Seq<(Seq<char>, nat)>
    decreases elems.len(),
{
    if elems.len() == 0 {
        Seq::empty()
    } else {
        let g = tag_groups(elems.drop_last());
        let t = elems.last().tag;
        match group_index(g, t) {
            Some(k) => g.update(k as int, (t, g[k as int].1 + 1)),
            None => g.push((t, 1)),
        }
    }
}

proof fn lemma_group_index_found(g: Seq<(Seq<char>, nat)>, t: Seq<char>)
    ensures
        group_index(g, t) matches Some(k) ==> k < g.len() && g[k as int].0 == t,
        group_index(g, t) is None ==> forall|i: int| 0 <= i < g.len() ==> #[trigger] g[i].0 != t,
    decreases g.len(),
{
    if g.len() > 0 {
        lemma_group_index_found(g.drop_last(), t);
        assert forall|i: int| 0 <= i < g.len() - 1 implies #[trigger] g[i] == g.drop_last()[i] by {}
    }
}

proof fn lemma_group_index_same_tags(g: Seq<(Seq<char>, nat)>, h: Seq<(Seq<char>, nat)>, t: Seq<char>)
    requires
        g.len() == h.len(),
        forall|i: int| 0 <= i < g.len() ==> #[trigger] g[i].0 == h[i].0,
    ensures
        group_index(g, t) == group_index(h, t),
    decreases g.len(),
{
    if g.len() > 0 {
        assert forall|i: int| 0 <= i < g.len() - 1 implies #[trigger] g.drop_last()[i].0 == h.drop_last()[i].0 by {
            assert(g.drop_last()[i] == g[i]);
            assert(h.drop_last()[i] == h[i]);
        }
        lemma_group_index_same_tags(g.drop_last(), h.drop_last(), t);
    }
}

/// Grouping children by tag gives one group per distinct tag, and every
/// child's tag has its group.
pub proof fn lemma_tag_groups(elems: Seq<XmlNodeV>)
    ensures
        forall|i: int, j: int|
            0 <= i < j < tag_groups(elems).len() ==> #[trigger] tag_groups(elems)[i].0 != #[trigger] tag_groups(elems)[j].0,
        forall|k: int| 0 <= k < elems.len() ==> group_index(tag_groups(elems), #[trigger] elems[k].tag) is Some,
    decreases elems.len(),
{
    if elems.len() > 0 {
        let init = elems.drop_last();
        lemma_tag_groups(init);
        let g = tag_groups(init);
        let t = elems.last().tag;
        lemma_group_index_found(g, t);
        let h = tag_groups(elems);
        match group_index(g, t) {
            Some(k) => {
                assert(h == g.update(k as int, (t, g[k as int].1 + 1)));
                assert forall|i: int| 0 <= i < g.len() implies #[trigger] g[i].0 == h[i].0 by {}
                assert forall|m: int| 0 <= m < elems.len() implies group_index(h, #[trigger] elems[m].tag) is Some by {
                    lemma_group_index_same_tags(g, h, elems[m].tag);
                    if m < init.len() {
                        assert(elems[m] == init[m]);
                    }
                }
            },
            None => {
                assert(h == g.push((t, 1)));
                assert(h.drop_last() =~= g);
                assert forall|m: int| 0 <= m < elems.len() implies group_index(h, #[trigger] elems[m].tag) is Some by {
                    if m < init.len() {
                        assert(elems[m] == init[m]);
                        assert(group_index(g, init[m].tag) is Some);
                    }
                }
                assert forall|i: int, j: int| 0 <= i < j < h.len() implies #[trigger] h[i].0 != #[trigger] h[j].0 by {
                    if j == h.len() - 1 {
                        assert(h[i] == g[i]);
                    } else {
                        assert(h[i] == g[i]);
                        assert(h[j] == g[j]);
                    }
                }
            },
        }
    }
}

/// Every child element of a card hangs from a row of its parent: the
/// reference row of its tag's group.
pub proof fn lemma_xml_children_anchored(n: XmlNodeV, base: nat, id: nat, depth: nat)
    ensures
        forall|k: int|
            0 <= k < child_elems(n.children).len() ==> ((#[trigger] element_children(
                child_elems(n.children),
                tag_groups(child_elems(n.children)),
                base,
                id,
                depth,
            )[k]).from matches Some((p, Some(_))) && p == id),
{
    lemma_tag_groups(child_elems(n.children));
}

/// One row per attribute, keyed `@name`.
pub open spec fn attr_rows(a: Seq<(Seq<char>, Seq<char>)>) -> Seq<RowV> {
    Seq::new(
        a.len(),
        |i: int|
            RowV {
                key: seq!['@'] + a[i].0,
                value: truncated_text(a[i].1, MAX_VALUE_CHARS as nat),
                kind: ValueKind::String,
            },
    )
}

/// The `#text` row, when the element has direct text.
pub open spec fn text_rows(n: XmlNodeV) -> Seq<RowV> {
    if node_text(n).len() > 0 {
        seq![RowV { key: "#text"@, value: truncated_text(node_text(n), MAX_VALUE_CHARS as nat), kind: ValueKind::Text }]
    } else {
        Seq::empty()
    }
}

/// `{1 node}` for a lone child, `[N nodes]` for a group.
pub open spec fn group_ref(count: nat) -> Seq<char> {
    if count == 1 {
        "{1 node}"@
    } else {
        seq!['['] + decimal(count) + " nodes]"@
    }
}

/// One reference row per tag group.
pub open spec fn group_rows(g: Seq<(Seq<char>, nat)>) -> Seq<RowV> {
    Seq::new(g.len(), |i: int| RowV { key: g[i].0, value: group_ref(g[i].1), kind: ValueKind::ObjectRef })
}

/// The rows of an element's card: attributes, direct text, tag groups; a
/// single dimmed `{empty}` row for an element with none of them.
pub open spec fn element_rows(n: XmlNodeV) -> Seq<RowV> {
    let rows = attr_rows(n.attributes) + text_rows(n) + group_rows(tag_groups(child_elems(n.children)));
    if rows.len() == 0 {
        seq![RowV { key: Seq::empty(), value: "{empty}"@, kind: ValueKind::Null }]
    } else {
        rows
    }
}

/// The element children, each hanging from its group's row of node `id`.
pub open spec fn element_children(
    elems: Seq<XmlNodeV>,
    groups: Seq<(Seq<char>, nat)>,
    base: nat,
    id: nat,
    depth: nat,
) -> Seq<PendingV<XmlNodeV>> {
    Seq::new(
        elems.len(),
        |k: int|
            PendingV {
                from: Some(
                    (
                        id,
                        match group_index(groups, elems[k].tag) {
                            Some(gi) => Some(base + gi),
                            None => None,
                        },
                    ),
                ),
                label: elems[k].tag,
                depth,
                payload: elems[k],
            },
    )
}

/// Places one pending element: a node with its rows, and a pending child
/// per element child, one column further right.
pub open spec fn xml_step(g: GraphV, p: PendingV<XmlNodeV>) -> (GraphV, Seq<PendingV<XmlNodeV>>) {
    let n = p.payload;
    let groups = tag_groups(child_elems(n.children));
    let base = attr_rows(n.attributes).len() + text_rows(n).len();
    let (g1, id) = with_node(g, p.from, p.label, p.depth, element_rows(n));
    match id {
        Some(id) => (g1, element_children(child_elems(n.children), groups, base, id, p.depth + 1)),
        None => (g1, Seq::empty()),
    }
}

pub open spec fn xml_gen(g: GraphV, gen: Seq<PendingV<XmlNodeV>>) -> (GraphV, Seq<PendingV<XmlNodeV>>)
    decreases gen.len(),
{
    if gen.len() == 0 {
        (g, Seq::empty())
    } else {
        let (g1, n1) = xml_gen(g, gen.drop_last());
        let (g2, c) = xml_step(g1, gen.last());
        (g2, n1 + c)
    }
}

pub open spec fn xml_bfs(g: GraphV, gen: Seq<PendingV<XmlNodeV>>, fuel: nat) -> GraphV
    decreases fuel,
{
    if gen.len() == 0 || fuel == 0 {
        g
    } else {
        let (g1, next) = xml_gen(g, gen);
        xml_bfs(g1, next, (fuel - 1) as nat)
    }
}

/// Nesting depth of an element (1 for a leaf).
pub open spec fn xml_height(n: XmlNodeV) -> nat
    decreases n,
{
    1 + kids_height(n.children)
}

pub open spec fn kids_height(cs: Seq<XmlChildV>) -> nat
    decreases cs,
{
    if cs.len() == 0 {
        0
    } else {
        let h = match cs[cs.len() - 1] {
            XmlChildV::Node(c) => xml_height(c),
            XmlChildV::Text(_) => 0,
        };
        let r = kids_height(cs.subrange(0, cs.len() - 1));
        if h >= r { h } else { r }
    }
}

pub proof fn lemma_kids_height(cs: Seq<XmlChildV>, k: int)
    requires
        0 <= k < child_elems(cs).len(),
    ensures
        xml_height(child_elems(cs)[k]) <= kids_height(cs),
    decreases cs.len(),
{
    let rest = cs.drop_last();
    assert(rest =~= cs.subrange(0, cs.len() - 1));
    if k < child_elems(rest).len() {
        lemma_kids_height(rest, k);
    }
}

/// The graph of an XML tree.
pub open spec fn xml_graph(root: XmlNodeV) -> GraphV {
    xml_bfs(
        empty_graph(),
        seq![PendingV { from: None, label: root.tag, depth: 0, payload: root }],
        xml_height(root) + 1,
    )
}

proof fn lemma_element_children_fit(n: XmlNodeV, id: nat, depth: nat)
    ensures
        ({
            let elems = child_elems(n.children);
            let groups = tag_groups(elems);
            let base = attr_rows(n.attributes).len() + text_rows(n).len();
            forall|k: int|
                0 <= k < element_children(elems, groups, base, id, depth).len() ==> {
                    let c = #[trigger] element_children(elems, groups, base, id, depth)[k];
                    &&& c.depth == depth
                    &&& c.from is Some && c.from->Some_0.0 == id
                    &&& c.from->Some_0.1 matches Some(r) ==> r < element_rows(n).len()
                }
        }),
{
    let elems = child_elems(n.children);
    let groups = tag_groups(elems);
    let base = attr_rows(n.attributes).len() + text_rows(n).len();
    assert forall|k: int| 0 <= k < element_children(elems, groups, base, id, depth).len() implies {
        let c = #[trigger] element_children(elems, groups, base, id, depth)[k];
        &&& c.depth == depth
        &&& c.from is Some && c.from->Some_0.0 == id
        &&& c.from->Some_0.1 matches Some(r) ==> r < element_rows(n).len()
    } by {
        lemma_group_index_found(groups, elems[k].tag);
        let rows = attr_rows(n.attributes) + text_rows(n) + group_rows(groups);
        assert(rows.len() == base + groups.len());
    }
}

proof fn lemma_xml_step_sound(g: GraphV, p: PendingV<XmlNodeV>)
    requires
        edges_sound(g),
        anchor_fits(g, p.from, p.depth),
    ensures
        edges_sound(xml_step(g, p).0),
        nodes_extend(g, xml_step(g, p).0),
        forall|k: int|
            0 <= k < xml_step(g, p).1.len() ==> anchor_fits(
                xml_step(g, p).0,
                (#[trigger] xml_step(g, p).1[k]).from,
                xml_step(g, p).1[k].depth,
            ),
{
    let n = p.payload;
    lemma_with_node_sound(g, p.from, p.label, p.depth, element_rows(n));
    if let Some(id) = with_node(g, p.from, p.label, p.depth, element_rows(n)).1 {
        lemma_element_children_fit(n, id, p.depth + 1);
    }
}

proof fn lemma_xml_gen_sound(g: GraphV, gen: Seq<PendingV<XmlNodeV>>)
    requires
        edges_sound(g),
        forall|k: int| 0 <= k < gen.len() ==> anchor_fits(g, (#[trigger] gen[k]).from, gen[k].depth),
    ensures
        edges_sound(xml_gen(g, gen).0),
        nodes_extend(g, xml_gen(g, gen).0),
        forall|k: int|
            0 <= k < xml_gen(g, gen).1.len() ==> anchor_fits(
                xml_gen(g, gen).0,
                (#[trigger] xml_gen(g, gen).1[k]).from,
                xml_gen(g, gen).1[k].depth,
            ),
    decreases gen.len(),
{
    if gen.len() > 0 {
        let init = gen.drop_last();
        assert forall|k: int| 0 <= k < init.len() implies anchor_fits(g, (#[trigger] init[k]).from, init[k].depth) by {
            assert(init[k] == gen[k]);
        }
        lemma_xml_gen_sound(g, init);
        let (g1, n1) = xml_gen(g, init);
        lemma_anchor_kept(g, g1, gen.last().from, gen.last().depth);
        lemma_xml_step_sound(g1, gen.last());
        let (g2, c) = xml_step(g1, gen.last());
        assert forall|k: int| 0 <= k < (n1 + c).len() implies anchor_fits(g2, (#[trigger] (n1 + c)[k]).from, (n1 + c)[k].depth) by {
            if k < n1.len() {
                lemma_anchor_kept(g1, g2, n1[k].from, n1[k].depth);
            } else {
                assert((n1 + c)[k] == c[k - n1.len()]);
            }
        }
    }
}

proof fn lemma_xml_bfs_sound(g: GraphV, gen: Seq<PendingV<XmlNodeV>>, fuel: nat)
    requires
        edges_sound(g),
        forall|k: int| 0 <= k < gen.len() ==> anchor_fits(g, (#[trigger] gen[k]).from, gen[k].depth),
    ensures
        edges_sound(xml_bfs(g, gen, fuel)),
    decreases fuel,
{
    if gen.len() > 0 && fuel > 0 {
        lemma_xml_gen_sound(g, gen);
        let (g1, next) = xml_gen(g, gen);
        lemma_xml_bfs_sound(g1, next, (fuel - 1) as nat);
    }
}

/// In the graph of an XML tree every edge joins a node to a node one
/// column further right, leaves from a row its parent has, and no node has
/// two parents.
pub proof fn lemma_xml_graph_edges(root: XmlNodeV)
    ensures
        edges_sound(xml_graph(root)),
{
    let gen = seq![PendingV { from: None, label: root.tag, depth: 0, payload: root }];
    assert forall|k: int| 0 <= k < gen.len() implies anchor_fits(empty_graph(), (#[trigger] gen[k]).from, gen[k].depth) by {}
    lemma_xml_bfs_sound(empty_graph(), gen, xml_height(root) + 1);
}

spec fn xp_view(p: Pending<XmlNode>) -> PendingV<XmlNodeV> {
    PendingV { from: from_view(p.from), label: p.label@, depth: p.depth as nat, payload: p.payload@ }
}

spec fn xps_view(ps: Seq<Pending<XmlNode>>) -> Seq<PendingV<XmlNodeV>> {
    Seq::new(ps.len(), |i: int| xp_view(ps[i]))
}

/// The direct text of an element: trimmed non-blank fragments joined by a
/// space.
fn xml_text_content(node: &XmlNode) -> (s: String)
    ensures
        s@ == node_text(node@),
{
    let mut s = String::new();
    let mut first = true;
    let mut i: usize = 0;
    while i < node.children.len()
        invariant
            i <= node.children.len(),
            s@ == join(text_parts(node@.children.take(i as int)), seq![' ']),
            first == (text_parts(node@.children.take(i as int)).len() == 0),
        decreases node.children.len() - i,
    {
        let ghost prefix = node@.children.take(i as int);
        assert(node@.children.take(i + 1).drop_last() =~= prefix);
        match &node.children[i] {
            XmlChild::Text(t) => {
                let v = chars_of(t.as_str());
                let tr = trim_chars(&v);
                if tr.len() > 0 {
                    proof {
                        lemma_join_push(text_parts(prefix), seq![' '], tr@);
                    }
                    if !first {
                        s.push(' ');
                    }
                    let piece = string_of(&tr);
                    s.append(piece.as_str());
                    first = false;
                }
            },
            XmlChild::Node(_) => {},
        }
        i = i + 1;
    }
    assert(node@.children.take(node.children.len() as int) =~= node@.children);
    s
}

spec fn groups_view(g: Seq<(String, usize)>) -> Seq<(Seq<char>, nat)> {
    Seq::new(g.len(), |i: int| (g[i].0@, g[i].1 as nat))
}

/// The first group with the given tag.
fn find_group(groups: &Vec<(String, usize)>, tag: &str) -> (r: Option<usize>)
    ensures
        opt_nat(r) == group_index(groups_view(groups@), tag@),
        r matches Some(k) ==> k < groups@.len(),
{
    let ghost gv = groups_view(groups@);
    let mut pos: Option<usize> = None;
    let mut j: usize = 0;
    assert(gv.take(0) =~= Seq::<(Seq<char>, nat)>::empty());
    while j < groups.len()
        invariant
            j <= groups.len(),
            gv == groups_view(groups@),
            opt_nat(pos) == group_index(gv.take(j as int), tag@),
            pos matches Some(k) ==> k < j,
        decreases groups.len() - j,
    {
        assert(gv.take(j + 1).drop_last() =~= gv.take(j as int));
        if pos.is_none() && crate::text::str_eq(groups[j].0.as_str(), tag) {
            pos = Some(j);
        }
        j = j + 1;
    }
    assert(gv.take(groups.len() as int) =~= gv);
    pos
}

/// The element children grouped by tag, with their sizes.
fn group_by_tag(kids: &Vec<&XmlNode>) -> (groups: Vec<(String, usize)>)
    ensures
        groups_view(groups@) == tag_groups(Seq::new(kids@.len(), |k: int| kids@[k]@)),
{
    let ghost elems = Seq::new(kids@.len(), |k: int| kids@[k]@);
    let mut groups: Vec<(String, usize)> = Vec::new();
    let mut i: usize = 0;
    assert(elems.take(0) =~= Seq::<XmlNodeV>::empty());
    assert(groups_view(groups@) =~= tag_groups(elems.take(0)));
    while i < kids.len()
        invariant
            i <= kids.len(),
            elems == Seq::new(kids@.len(), |k: int| kids@[k]@),
            groups_view(groups@) == tag_groups(elems.take(i as int)),
            forall|k: int| 0 <= k < groups@.len() ==> #[trigger] groups@[k].1 <= i,
        decreases kids.len() - i,
    {
        assert(elems.take(i + 1).drop_last() =~= elems.take(i as int));
        assert(elems.take(i + 1).last() == kids@[i as int]@);
        let ghost gv = groups_view(groups@);
        let tag: &str = kids[i].tag.as_str();
        match find_group(&groups, tag) {
            Some(k) => {
                let c = groups[k].1;
                let t = kids[i].tag.clone();
                groups.set(k, (t, c + 1));
                assert(groups_view(groups@) =~= gv.update(k as int, (kids@[i as int]@.tag, gv[k as int].1 + 1)));
            },
            None => {
                let t = kids[i].tag.clone();
                groups.push((t, 1));
                assert(groups_view(groups@) =~= gv.push((kids@[i as int]@.tag, 1)));
            },
        }
        i = i + 1;
    }
    assert(elems.take(kids.len() as int) =~= elems);
    groups
}

/// The rows of an element's card, and the index of its first group row.
fn element_card(node: &XmlNode, groups: &Vec<(String, usize)>) -> (r: (Vec<GraphRow>, usize))
    requires
        groups_view(groups@) == tag_groups(child_elems(node@.children)),
    ensures
        rows_view(r.0@) == element_rows(node@),
        r.1 == attr_rows(node@.attributes).len() + text_rows(node@).len(),
        r.1 + groups@.len() <= usize::MAX,
{
    let ghost n = node@;
    let mut rows: Vec<GraphRow> = Vec::new();
    let mut i: usize = 0;
    while i < node.attributes.len()
        invariant
            i <= node.attributes.len(),
            n == node@,
            rows_view(rows@) == attr_rows(n.attributes).take(i as int),
        decreases node.attributes.len() - i,
    {
        let ghost before = rows@;
        let mut key = String::new();
        key.push('@');
        key.append(node.attributes[i].0.as_str());
        let value = truncate_chars(node.attributes[i].1.as_str(), MAX_VALUE_CHARS);
        assert(n.attributes[i as int] == (node.attributes@[i as int].0@, node.attributes@[i as int].1@));
        assert(key@ =~= seq!['@'] + n.attributes[i as int].0);
        rows.push(GraphRow { key, value, kind: ValueKind::String });
        assert(rows_view(rows@) =~= rows_view(before).push(attr_rows(n.attributes)[i as int]));
        i = i + 1;
        assert(rows_view(rows@) =~= attr_rows(n.attributes).take(i as int));
    }
    assert(attr_rows(n.attributes).take(node.attributes.len() as int) =~= attr_rows(n.attributes));
    let text = xml_text_content(node);
    let tv = chars_of(text.as_str());
    if tv.len() > 0 {
        let ghost before = rows@;
        let key = String::from_str("#text");
        let value = truncate_chars(text.as_str(), MAX_VALUE_CHARS);
        rows.push(GraphRow { key, value, kind: ValueKind::Text });
        assert(rows_view(rows@) =~= attr_rows(n.attributes) + text_rows(n));
    } else {
        assert(rows_view(rows@) =~= attr_rows(n.attributes) + text_rows(n));
    }
    let base = rows.len();
    let ghost head = rows_view(rows@);
    let ghost gv = groups_view(groups@);
    let mut j: usize = 0;
    while j < groups.len()
        invariant
            j <= groups.len(),
            gv == groups_view(groups@),
            base == head.len(),
            rows_view(rows@) == head + group_rows(gv).take(j as int),
        decreases groups.len() - j,
    {
        let value = if groups[j].1 == 1 {
            String::from_str("{1 node}")
        } else {
            let mut v = String::new();
            v.push('[');
            v.append(usize_text(groups[j].1).as_str());
            v.append(" nodes]");
            v
        };
        assert(value@ =~= group_ref(gv[j as int].1));
        let key = groups[j].0.clone();
        let ghost before = rows@;
        rows.push(GraphRow { key, value, kind: ValueKind::ObjectRef });
        assert(rows_view(rows@) =~= rows_view(before).push(group_rows(gv)[j as int]));
        j = j + 1;
        assert(rows_view(rows@) =~= head + group_rows(gv).take(j as int));
    }
    assert(group_rows(gv).take(groups.len() as int) =~= group_rows(gv));
    if rows.len() == 0 {
        let value = String::from_str("{empty}");
        rows.push(GraphRow { key: String::new(), value, kind: ValueKind::Null });
        assert(rows_view(rows@) =~= element_rows(n));
    }
    (rows, base)
}

/// Places one pending element, pushing its children.
fn xml_place<'a>(graph: &mut Graph, p: &Pending<'a, XmlNode>, next: &mut Vec<Pending<'a, XmlNode>>)
    requires
        old(graph).nodes@.len() <= MAX_GRAPH_NODES,
        p.depth + xml_height(p.payload@) < usize::MAX,
        graph_wf(old(graph)@),
        anchored(p.from, old(graph).nodes@.len() as nat),
    ensures
        graph_wf(final(graph)@),
        final(graph).nodes@.len() >= old(graph).nodes@.len(),
        forall|k: int| old(next)@.len() <= k < final(next)@.len() ==> anchored((#[trigger] final(next)@[k]).from, final(graph).nodes@.len() as nat),
        final(graph).nodes@.len() <= MAX_GRAPH_NODES,
        (final(graph)@, xps_view(final(next)@)) == ({
            let (g1, c) = xml_step(old(graph)@, xp_view(*p));
            (g1, xps_view(old(next)@) + c)
        }),
        forall|k: int|
            old(next)@.len() <= k < final(next)@.len() ==> {
                &&& xml_height((#[trigger] final(next)@[k]).payload@) < xml_height(p.payload@)
                &&& final(next)@[k].depth + xml_height(final(next)@[k].payload@) <= p.depth + xml_height(p.payload@)
            },
        forall|k: int| 0 <= k < old(next)@.len() ==> #[trigger] final(next)@[k] == old(next)@[k],
{
    let ghost n0 = next@;
    let node: &'a XmlNode = p.payload;
    let kids: Vec<&'a XmlNode> = node.child_nodes();
    let ghost elems = child_elems(node@.children);
    assert(Seq::new(kids@.len(), |k: int| kids@[k]@) =~= elems);
    let groups = group_by_tag(&kids);
    let (rows, base) = element_card(node, &groups);
    let id = alloc_node(graph, p.from, &p.label, p.depth, rows);
    match id {
        Some(id) => {
            let ghost gv = groups_view(groups@);
            let ghost want = element_children(elems, gv, base as nat, id as nat, p.depth as nat + 1);
            let mut k: usize = 0;
            while k < kids.len()
                invariant
                    k <= kids.len(),
                    kids@.len() == elems.len(),
                    elems == child_elems(node@.children),
                    forall|m: int| 0 <= m < kids@.len() ==> (#[trigger] kids@[m])@ == elems[m],
                    gv == groups_view(groups@),
                    base + groups@.len() <= usize::MAX,
                    p.depth + xml_height(node@) < usize::MAX,
                    node@ == p.payload@,
                    want == element_children(elems, gv, base as nat, id as nat, p.depth as nat + 1),
                    xps_view(next@) == xps_view(n0) + want.take(k as int),
                    id < graph.nodes@.len(),
                    forall|m: int| n0.len() <= m < next@.len() ==> anchored((#[trigger] next@[m]).from, graph.nodes@.len() as nat),
                    next@.len() == n0.len() + k,
                    forall|m: int| 0 <= m < n0.len() ==> #[trigger] next@[m] == n0[m],
                    forall|m: int|
                        n0.len() <= m < next@.len() ==> {
                            &&& xml_height((#[trigger] next@[m]).payload@) < xml_height(node@)
                            &&& next@[m].depth + xml_height(next@[m].payload@) <= p.depth + xml_height(node@)
                        },
                decreases kids.len() - k,
            {
                let ghost before = next@;
                let kid: &'a XmlNode = kids[k];
                let row = match find_group(&groups, kid.tag.as_str()) {
                    Some(gi) => Some(base + gi),
                    None => None,
                };
                proof {
                    lemma_kids_height(node@.children, k as int);
                }
                next.push(Pending { from: Some((id, row)), label: kid.tag.clone(), depth: p.depth + 1, payload: kid });
                assert(xps_view(next@) =~= xps_view(before).push(want[k as int]));
                k = k + 1;
                assert(xps_view(next@) =~= xps_view(n0) + want.take(k as int));
            }
            assert(want.take(kids.len() as int) =~= want);
        },
        None => {
            assert(xps_view(next@) =~= xps_view(n0) + Seq::<PendingV<XmlNodeV>>::empty());
        },
    }
}

/// Builds the graph of an XML tree breadth first: each element is a node
/// with a row per attribute (`@name`), a `#text` row for its direct text,
/// and a reference row per group of same-tag children; each child element
/// is a node of its own, hanging from its group's row.
pub fn build_xml_graph(root: &XmlNode) -> (g: Graph)
    requires
        xml_height(root@) < usize::MAX,
    ensures
        g@ == xml_graph(root@),
        graph_wf(g@),
        edges_sound(g@),
{
    let mut graph = Graph::new();
    let mut gen: Vec<Pending<XmlNode>> = Vec::new();
    gen.push(Pending { from: None, label: root.tag.clone(), depth: 0, payload: root });
    let ghost h = xml_height(root@);
    let ghost mut fuel: nat = h + 1;
    assert(xps_view(gen@) =~= seq![PendingV { from: None, label: root@.tag, depth: 0, payload: root@ }]);
    while gen.len() > 0
        invariant
            h == xml_height(root@),
            h < usize::MAX,
            graph_wf(graph@),
            forall|k: int| 0 <= k < gen@.len() ==> anchored((#[trigger] gen@[k]).from, graph.nodes@.len() as nat),
            graph.nodes@.len() <= MAX_GRAPH_NODES,
            xml_bfs(graph@, xps_view(gen@), fuel) == xml_graph(root@),
            forall|k: int|
                0 <= k < gen@.len() ==> {
                    &&& xml_height((#[trigger] gen@[k]).payload@) < fuel
                    &&& gen@[k].depth + xml_height(gen@[k].payload@) <= h
                },
        decreases fuel,
    {
        let ghost g0 = graph@;
        let ghost gv = xps_view(gen@);
        assert(fuel > 0) by {
            assert(xml_height(gen@[0].payload@) < fuel);
        }
        let mut next: Vec<Pending<XmlNode>> = Vec::new();
        let mut k: usize = 0;
        assert(gv.take(0) =~= Seq::<PendingV<XmlNodeV>>::empty());
        assert(xps_view(next@) =~= Seq::<PendingV<XmlNodeV>>::empty());
        while k < gen.len()
            invariant
                k <= gen.len(),
                gv == xps_view(gen@),
                h < usize::MAX,
                graph_wf(graph@),
                forall|m: int| 0 <= m < gen@.len() ==> anchored((#[trigger] gen@[m]).from, graph.nodes@.len() as nat),
                forall|m: int| 0 <= m < next@.len() ==> anchored((#[trigger] next@[m]).from, graph.nodes@.len() as nat),
                graph.nodes@.len() <= MAX_GRAPH_NODES,
                xml_gen(g0, gv.take(k as int)) == (graph@, xps_view(next@)),
                forall|m: int|
                    0 <= m < gen@.len() ==> {
                        &&& xml_height((#[trigger] gen@[m]).payload@) < fuel
                        &&& gen@[m].depth + xml_height(gen@[m].payload@) <= h
                    },
                forall|m: int|
                    0 <= m < next@.len() ==> {
                        &&& xml_height((#[trigger] next@[m]).payload@) + 1 < fuel
                        &&& next@[m].depth + xml_height(next@[m].payload@) <= h
                    },
            decreases gen.len() - k,
        {
            assert(gv.take(k + 1).drop_last() =~= gv.take(k as int));
            assert(gv[k as int] == xp_view(gen@[k as int]));
            xml_place(&mut graph, &gen[k], &mut next);
            k = k + 1;
        }
        assert(gv.take(gen.len() as int) =~= gv);
        gen = next;
        proof {
            fuel = (fuel - 1) as nat;
        }
    }
    assert(xps_view(gen@) =~= Seq::<PendingV<XmlNodeV>>::empty());
    proof {
        lemma_xml_graph_edges(root@);
    }
    graph
}

} // verus!
