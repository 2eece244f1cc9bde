//! What the difference table and the graph view show: the rows a filter
//! keeps, the detail text of a node, the nodes a search finds, and the
//! widths and children the layout is computed from.

use vstd::prelude::*;
use crate::diff_engine::{DiffItem, DiffItemV, DiffKind, refs_view};
use crate::graph::{Graph, GraphNode, GraphV, NodeV, RowV, rows_view};
use crate::text::{chars_of, is_whitespace, lowercase, string_of, to_lowercase, trail_ws, trimmed, trim_chars, lemma_trail_ws};

verus! {

// The difference table

/// Whether a row of the given kind is shown, given the three filter
/// toggles (added, removed, changed).
pub open spec fn kind_shown(kind: DiffKind, filters: (bool, bool, bool)) -> bool {
    match kind {
        DiffKind::Added => filters.0,
        DiffKind::Removed => filters.1,
        DiffKind::Changed => filters.2,
    }
}

pub open spec fn shown_items(items: Seq<DiffItemV>, filters: (bool, bool, bool)) -> Seq<DiffItemV>
    decreases items.len(),
{
    if items.len() == 0 {
        Seq::empty()
    } else {
        let rest = shown_items(items.drop_last(), filters);
        if kind_shown(items.last().kind, filters) {
            rest.push(items.last())
        } else {
            rest
        }
    }
}

/// The rows the table shows: the items whose kind is toggled on, in order.
pub fn filter_items<'a>(items: &Vec<&'a DiffItem>, filters: (bool, bool, bool)) -> (v: Vec<&'a DiffItem>)
    ensures
        refs_view(v@) == shown_items(refs_view(items@), filters),
{
    let ghost iv = refs_view(items@);
    let mut v: Vec<&'a DiffItem> = Vec::new();
    let mut i: usize = 0;
    assert(iv.take(0) =~= Seq::<DiffItemV>::empty());
    assert(refs_view(v@) =~= shown_items(iv.take(0), filters));
    while i < items.len()
        invariant
            i <= items.len(),
            iv == refs_view(items@),
            refs_view(v@) == shown_items(iv.take(i as int), filters),
        decreases items.len() - i,
    {
        assert(iv.take(i + 1).drop_last() =~= iv.take(i as int));
        assert(iv.take(i + 1).last() == items@[i as int]@);
        let item = items[i];
        let show = match item.kind {
            DiffKind::Added => filters.0,
            DiffKind::Removed => filters.1,
            DiffKind::Changed => filters.2,
        };
        if show {
            let ghost before = refs_view(v@);
            v.push(item);
            assert(refs_view(v@) =~= before.push(item@));
        }
        i = i + 1;
    }
    assert(iv.take(items.len() as int) =~= iv);
    v
}

// Node details

/// `s` without trailing whitespace, as `str::trim_end` gives it.
pub open spec fn trimmed_end(s: Seq<char>) -> Seq<char> {
    s.take(s.len() - trail_ws(s))
}

pub open spec fn row_detail(r: RowV) -> Seq<char> {
    if r.key.len() == 0 {
        r.value + seq!['\n']
    } else {
        r.key + ": "@ + r.value + seq!['\n']
    }
}

pub open spec fn rows_detail(rows: Seq<RowV>) -> Seq<char>
    decreases rows.len(),
{
    if rows.len() == 0 {
        Seq::empty()
    } else {
        rows_detail(rows.drop_last()) + row_detail(rows.last())
    }
}

/// The text shown for a selected node: its label on a line, then one line
/// per row (`key: value`, or the value alone), without trailing whitespace.
pub open spec fn node_detail(n: NodeV) -> Seq<char> {
    trimmed_end((if n.label.len() > 0 { n.label + seq!['\n'] } else { Seq::empty() }) + rows_detail(n.rows))
}

/// The detail text of a node.
pub fn node_detail_text(node: &GraphNode) -> (s: String)
    ensures
        s@ == node_detail(node@),
{
    let mut out = String::new();
    if node.label.as_str().unicode_len() > 0 {
        out.append(node.label.as_str());
        out.push('\n');
    }
    let ghost head = out@;
    let ghost rv = rows_view(node.rows@);
    let mut i: usize = 0;
    assert(rv.take(0) =~= Seq::<RowV>::empty());
    assert(out@ =~= head + rows_detail(rv.take(0)));
    while i < node.rows.len()
        invariant
            i <= node.rows.len(),
            rv == rows_view(node.rows@),
            out@ == head + rows_detail(rv.take(i as int)),
        decreases node.rows.len() - i,
    {
        assert(rv.take(i + 1).drop_last() =~= rv.take(i as int));
        assert(rv.take(i + 1).last() == node.rows@[i as int]@);
        let row = &node.rows[i];
        if row.key.as_str().unicode_len() == 0 {
            out.append(row.value.as_str());
        } else {
            out.append(row.key.as_str());
            out.append(": ");
            out.append(row.value.as_str());
        }
        out.push('\n');
        i = i + 1;
        assert(out@ =~= head + rows_detail(rv.take(i as int)));
    }
    assert(rv.take(node.rows.len() as int) =~= rv);
    let v = chars_of(out.as_str());
    let mut n: usize = v.len();
    assert(v@.take(n as int) =~= v@);
    assert(v@ == (if node@.label.len() > 0 { node@.label + seq!['\n'] } else { Seq::empty() }) + rows_detail(node@.rows));
    while n > 0 && is_whitespace(v[n - 1])
        invariant
            n <= v.len(),
            trail_ws(v@) == (v.len() - n) + trail_ws(v@.take(n as int)),
        decreases n,
    {
        assert(v@.take(n as int).drop_last() =~= v@.take(n - 1));
        n = n - 1;
    }
    assert(trail_ws(v@) == v.len() - n) by {
        if n > 0 {
            assert(!crate::text::is_ws(v@[n - 1]));
        }
    }
    let mut r: Vec<char> = Vec::new();
    let mut j: usize = 0;
    while j < n
        invariant
            j <= n <= v.len(),
            r@ == v@.take(j as int),
        decreases n - j,
    {
        r.push(v[j]);
        j = j + 1;
        assert(r@ =~= v@.take(j as int));
    }
    string_of(&r)
}

// Graph search

/// Whether `needle` occurs in `hay`.
pub open spec fn occurs_in(hay: Seq<char>, needle: Seq<char>) -> bool {
    exists|i: int| 0 <= i && i + needle.len() <= hay.len() && #[trigger] hay.subrange(i, i + needle.len()) == needle
}

/// Whether `needle` occurs in `hay`, as `str::contains` tells it.
pub fn contains_text(hay: &str, needle: &str) -> (b: bool)
    ensures
        b == occurs_in(hay@, needle@),
{
    let h = chars_of(hay);
    let n = chars_of(needle);
    if n.len() > h.len() {
        return false;
    }
    let mut i: usize = 0;
    while i <= h.len() - n.len()
        invariant
            n.len() <= h.len(),
            i <= h.len() - n.len() + 1,
            h@ == hay@,
            n@ == needle@,
            forall|k: int| 0 <= k < i ==> #[trigger] h@.subrange(k, k + n@.len()) != n@,
        decreases h.len() - i,
    {
        let mut j: usize = 0;
        while j < n.len() && h[i + j] == n[j]
            invariant
                j <= n.len(),
                i + n.len() <= h.len(),
                forall|m: int| 0 <= m < j ==> h@[i + m] == n@[m],
            decreases n.len() - j,
        {
            j = j + 1;
        }
        if j == n.len() {
            assert(h@.subrange(i as int, i + n@.len()) =~= n@);
            return true;
        }
        assert(h@.subrange(i as int, i + n@.len())[j as int] != n@[j as int]);
        i = i + 1;
    }
    assert forall|k: int| 0 <= k && k + needle@.len() <= hay@.len() implies #[trigger] hay@.subrange(k, k + needle@.len()) != needle@ by {
        assert(k < i);
    }
    false
}

/// Whether a row's key or value, lowercased, contains the query.
pub open spec fn row_hit(r: RowV, q: Seq<char>) -> bool {
    occurs_in(lowercase(r.key), q) || occurs_in(lowercase(r.value), q)
}

/// Whether a node matches a lowercased query: its label, or the key or
/// value of one of its rows, lowercased, contains the query.
pub open spec fn node_hit(n: NodeV, q: Seq<char>) -> bool {
    occurs_in(lowercase(n.label), q) || exists|k: int| 0 <= k < n.rows.len() && #[trigger] row_hit(n.rows[k], q)
}

pub open spec fn hits(nodes: Seq<NodeV>, q: Seq<char>) -> Seq<nat>
    decreases nodes.len(),
{
    if nodes.len() == 0 {
        Seq::empty()
    } else {
        let rest = hits(nodes.drop_last(), q);
        if node_hit(nodes.last(), q) {
            rest.push(nodes.last().id)
        } else {
            rest
        }
    }
}

/// The nodes a search finds, in order: none for a blank query, else those
/// whose label, keys or values contain the trimmed query, ignoring case.
pub open spec fn search_hits(g: GraphV, query: Seq<char>) -> Seq<nat> {
    let q = lowercase(trimmed(query));
    if q.len() == 0 {
        Seq::empty()
    } else {
        hits(g.nodes, q)
    }
}

fn node_matches(node: &GraphNode, q: &str) -> (b: bool)
    ensures
        b == node_hit(node@, q@),
{
    let label = to_lowercase(node.label.as_str());
    if contains_text(label.as_str(), q) {
        return true;
    }
    let ghost rv = rows_view(node.rows@);
    let mut k: usize = 0;
    while k < node.rows.len()
        invariant
            k <= node.rows.len(),
            rv == rows_view(node.rows@),
            rv == node@.rows,
            !occurs_in(lowercase(node@.label), q@),
            forall|m: int| 0 <= m < k ==> !#[trigger] row_hit(rv[m], q@),
        decreases node.rows.len() - k,
    {
        let key = to_lowercase(node.rows[k].key.as_str());
        let value = to_lowercase(node.rows[k].value.as_str());
        assert(rv[k as int] == node.rows@[k as int]@);
        let hit = contains_text(key.as_str(), q) || contains_text(value.as_str(), q);
        assert(hit == row_hit(rv[k as int], q@));
        if hit {
            assert(row_hit(node@.rows[k as int], q@));
            return true;
        }
        k = k + 1;
    }
    assert forall|m: int| 0 <= m < node@.rows.len() implies !#[trigger] row_hit(node@.rows[m], q@) by {
        assert(rv[m] == node@.rows[m]);
    }
    false
}

/// The ids of the nodes matching a search query.
pub fn search_matches(graph: &Graph, query: &str) -> (ids: Vec<usize>)
    ensures
        ids@.len() == search_hits(graph@, query@).len(),
        forall|i: int| 0 <= i < ids@.len() ==> ids@[i] as nat == #[trigger] search_hits(graph@, query@)[i],
{
    let v = chars_of(query);
    let t = string_of(&trim_chars(&v));
    let q = to_lowercase(t.as_str());
    let mut ids: Vec<usize> = Vec::new();
    if q.as_str().unicode_len() == 0 {
        return ids;
    }
    let ghost nodes = graph@.nodes;
    let mut i: usize = 0;
    assert(nodes.take(0) =~= Seq::<NodeV>::empty());
    while i < graph.nodes.len()
        invariant
            i <= graph.nodes.len(),
            nodes == graph@.nodes,
            q@ == lowercase(trimmed(query@)),
            ids@.len() == hits(nodes.take(i as int), q@).len(),
            forall|k: int| 0 <= k < ids@.len() ==> ids@[k] as nat == #[trigger] hits(nodes.take(i as int), q@)[k],
        decreases graph.nodes.len() - i,
    {
        assert(nodes.take(i + 1).drop_last() =~= nodes.take(i as int));
        assert(nodes.take(i + 1).last() == graph.nodes@[i as int]@);
        if node_matches(&graph.nodes[i], q.as_str()) {
            ids.push(graph.nodes[i].id);
        }
        i = i + 1;
    }
    assert(nodes.take(graph.nodes.len() as int) =~= nodes);
    ids
}

/// The match after `current` when cycling through `count` matches: the
/// next index, modulo the count.
pub fn next_match(current: usize, count: usize) -> (n: usize)
    requires
        count > 0,
    ensures
        n == (current + 1) % (count as int),
{
    let r = current % count;
    proof {
        let c = current as int;
        let m = count as int;
        let q = r as int;
        assert((c + 1) % m == (q + 1) % m) by (nonlinear_arith)
            requires
                m > 0,
                q == c % m,
        ;
        assert(0 <= q < m);
        if q + 1 < m {
            vstd::arithmetic::div_mod::lemma_small_mod((q + 1) as nat, m as nat);
        } else {
            vstd::arithmetic::div_mod::lemma_mod_self_0(m);
        }
    }
    if r + 1 == count {
        0
    } else {
        r + 1
    }
}

// Layout inputs

/// The characters a row takes: key, `": "` when there is a key, value.
pub open spec fn row_chars(r: RowV) -> nat {
    r.key.len() + (if r.key.len() == 0 { 0nat } else { 2nat }) + r.value.len()
}

pub open spec fn max_row_chars(rows: Seq<RowV>) -> nat
    decreases rows.len(),
{
    if rows.len() == 0 {
        0
    } else {
        let a = max_row_chars(rows.drop_last());
        let b = row_chars(rows.last());
        if a >= b { a } else { b }
    }
}

/// The width of a node in characters: its widest row, or 1 without rows.
pub open spec fn node_chars(n: NodeV) -> nat {
    if n.rows.len() == 0 {
        1
    } else {
        max_row_chars(n.rows)
    }
}

/// The width of a node's widest row, in characters (as a `u128`, which no
/// sum of two string lengths can overflow).
pub fn node_char_width(node: &GraphNode) -> (w: u128)
    ensures
        w == node_chars(node@),
{
    let ghost rv = rows_view(node.rows@);
    if node.rows.len() == 0 {
        return 1;
    }
    let mut best: u128 = 0;
    let mut i: usize = 0;
    assert(rv.take(0) =~= Seq::<RowV>::empty());
    while i < node.rows.len()
        invariant
            i <= node.rows.len(),
            rv == rows_view(node.rows@),
            best == max_row_chars(rv.take(i as int)),
            best <= 2 * (usize::MAX as int) + 2,
        decreases node.rows.len() - i,
    {
        assert(rv.take(i + 1).drop_last() =~= rv.take(i as int));
        assert(rv.take(i + 1).last() == node.rows@[i as int]@);
        let kn = node.rows[i].key.as_str().unicode_len() as u128;
        let vn = node.rows[i].value.as_str().unicode_len() as u128;
        let sep: u128 = if kn == 0 { 0 } else { 2 };
        let w = kn + sep + vn;
        if w > best {
            best = w;
        }
        i = i + 1;
    }
    assert(rv.take(node.rows.len() as int) =~= rv);
    best
}

/// The children of node `id`, in the order of the edges that reach them.
pub open spec fn children_of(g: GraphV, id: nat) -> Seq<nat> {
    edge_targets(g.edges, id)
}

pub open spec fn edge_targets(edges: Seq<crate::graph::EdgeV>, id: nat) -> Seq<nat>
    decreases edges.len(),
{
    if edges.len() == 0 {
        Seq::empty()
    } else {
        let rest = edge_targets(edges.drop_last(), id);
        if edges.last().from == id {
            rest.push(edges.last().to)
        } else {
            rest
        }
    }
}

/// Every edge leaves from a node of the graph.
pub open spec fn edges_leave_nodes(g: crate::graph::GraphV) -> bool {
    forall|k: int| 0 <= k < g.edges.len() ==> #[trigger] g.edges[k].from < g.nodes.len()
}

proof fn lemma_edge_leaves(g: crate::graph::GraphV, k: int)
    requires
        edges_leave_nodes(g),
        0 <= k < g.edges.len(),
    ensures
        g.edges[k].from < g.nodes.len(),
{
    assert(g.edges[k].from < g.nodes.len());
}

/// For each node, its children in edge order; the layout stacks them in
/// that order.
#[verifier::spinoff_prover]
pub fn child_lists(graph: &Graph) -> (lists: Vec<Vec<usize>>)
    requires
        edges_leave_nodes(graph@),
    ensures
        lists@.len() == graph@.nodes.len(),
        forall|i: int|
            0 <= i < lists@.len() ==> #[trigger] lists@[i]@.len() == children_of(graph@, i as nat).len() && forall|k: int|
                0 <= k < lists@[i]@.len() ==> lists@[i]@[k] as nat == children_of(graph@, i as nat)[k],
{
    let n = graph.nodes.len();
    let mut lists: Vec<Vec<usize>> = Vec::new();
    let mut i: usize = 0;
    while i < n
        invariant
            i <= n,
            n == graph.nodes@.len(),
            lists@.len() == i,
            forall|j: int| 0 <= j < i ==> (#[trigger] lists@[j])@.len() == 0,
        decreases n - i,
    {
        lists.push(Vec::new());
        i = i + 1;
    }
    let ghost edges = graph@.edges;
    assert(edges.take(0) =~= Seq::<crate::graph::EdgeV>::empty());
    let mut k: usize = 0;
    while k < graph.edges.len()
        invariant
            k <= graph.edges.len(),
            n == graph.nodes@.len(),
            n == graph@.nodes.len(),
            edges == graph@.edges,
            edges_leave_nodes(graph@),
            lists@.len() == n,
            forall|j: int|
                0 <= j < n ==> (#[trigger] lists@[j])@.len() == edge_targets(edges.take(k as int), j as nat).len()
                    && forall|m: int|
                    0 <= m < lists@[j]@.len() ==> lists@[j]@[m] as nat == edge_targets(edges.take(k as int), j as nat)[m],
        decreases graph.edges.len() - k,
    {
        assert(edges.take(k + 1).drop_last() =~= edges.take(k as int));
        assert(edges.take(k + 1).last() == graph.edges@[k as int]@);
        let from = graph.edges[k].from;
        let to = graph.edges[k].to;
        assert(edges.len() == graph.edges@.len());
        assert(edges[k as int] == graph.edges@[k as int]@);
        proof {
            lemma_edge_leaves(graph@, k as int);
        }
        let ghost before = lists@;
        let mut row = lists[from].clone();
        row.push(to);
        lists.set(from, row);
        k = k + 1;
        assert forall|j: int| 0 <= j < n implies (#[trigger] lists@[j])@.len() == edge_targets(edges.take(k as int), j as nat).len()
            && forall|m: int| 0 <= m < lists@[j]@.len() ==> lists@[j]@[m] as nat == edge_targets(edges.take(k as int), j as nat)[m] by {
            if j != from as int {
                assert(lists@[j] == before[j]);
            }
        }
    }
    assert(edges.take(graph.edges.len() as int) =~= edges);
    lists
}

} // verus!
