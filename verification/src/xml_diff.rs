//! Semantic diff of XML trees: tag, attributes (by key), direct text and
//! element children (by position).

use vstd::prelude::*;
use crate::diff_engine::{
    DiffItem, DiffItemV, DiffKind, DiffResult, Diffs, lemma_concat_assoc, lemma_concat_empty, lemma_placed_concat,
    lemma_placed_single, lemma_placed_widen, well_placed,
};
use crate::parser::{XmlChild, XmlChildV, XmlNode, XmlNodeV, attr_lookup, attrs_view, child_elems, direct_text, elem_positions};
use crate::text::{byte_prefix, byte_prefix_of, chars_eq, chars_lt, chars_of, decimal, join, lemma_join_push, seq_lt, str_eq, string_of, usize_text, utf8_len, utf8_longer_than};

verus! {

pub open spec fn tag_display(tag: Seq<char>) -> Seq<char> {
    seq!['<'] + tag + seq!['>']
}

pub open spec fn text_path(path: Seq<char>) -> Seq<char> {
    path + ".[text]"@
}

pub open spec fn attr_path(path: Seq<char>, key: Seq<char>) -> Seq<char> {
    path + "[@"@ + key + seq![']']
}

pub open spec fn elem_path(path: Seq<char>, tag: Seq<char>) -> Seq<char> {
    path + seq!['.'] + tag
}

/// Inserts a key into a sequence of distinct keys kept in order; a key that
/// is already there leaves it unchanged.
pub open spec fn insert_key(s: Seq<Seq<char>>, k: Seq<char>) -> Seq<Seq<char>>
    decreases s.len(),
{
    if s.len() == 0 {
        seq![k]
    } else if s[0] == k {
        s
    } else if seq_lt(k, s[0]) {
        seq![k] + s
    } else {
        seq![s[0]] + insert_key(s.drop_first(), k)
    }
}

/// The distinct keys of `keys`, in order (what collecting into a `BTreeSet` gives).
pub open spec fn key_union(keys: Seq<Seq<char>>) -> Seq<Seq<char>>
    decreases keys.len(),
{
    if keys.len() == 0 {
        Seq::empty()
    } else {
        insert_key(key_union(keys.drop_last()), keys.last())
    }
}

pub open spec fn attr_keys(a: Seq<(Seq<char>, Seq<char>)>) -> Seq<Seq<char>> {
    Seq::new(a.len(), |i: int| a[i].0)
}

/// The difference, if any, of one attribute key.
pub open spec fn attr_key_diff(
    la: Seq<(Seq<char>, Seq<char>)>,
    ra: Seq<(Seq<char>, Seq<char>)>,
    key: Seq<char>,
    path: Seq<char>,
) -> Diffs {
    let p = attr_path(path, key);
    match (attr_lookup(la, key), attr_lookup(ra, key)) {
        (Some(lv), Some(rv)) => if lv != rv {
            Diffs::single(DiffItemV { path: p, kind: DiffKind::Changed, left: Some(lv), right: Some(rv) })
        } else {
            Diffs::empty()
        },
        (Some(lv), None) => Diffs::single(
            DiffItemV { path: p, kind: DiffKind::Removed, left: Some(lv), right: None },
        ),
        (None, Some(rv)) => Diffs::single(
            DiffItemV { path: p, kind: DiffKind::Added, left: None, right: Some(rv) },
        ),
        (None, None) => Diffs::empty(),
    }
}

pub open spec fn keys_diff(
    la: Seq<(Seq<char>, Seq<char>)>,
    ra: Seq<(Seq<char>, Seq<char>)>,
    keys: Seq<Seq<char>>,
    path: Seq<char>,
) -> Diffs
    decreases keys.len(),
{
    if keys.len() == 0 {
        Diffs::empty()
    } else {
        keys_diff(la, ra, keys.drop_last(), path).concat(attr_key_diff(la, ra, keys.last(), path))
    }
}

/// The attribute differences of two nodes: every key of either side, in key
/// order, looked up by its first occurrence on each side.
pub open spec fn attributes_diff(
    la: Seq<(Seq<char>, Seq<char>)>,
    ra: Seq<(Seq<char>, Seq<char>)>,
    path: Seq<char>,
) -> Diffs {
    keys_diff(la, ra, key_union(attr_keys(la) + attr_keys(ra)), path)
}

/// The difference, if any, of the direct texts of two nodes.
pub open spec fn text_diff(lt: Seq<char>, rt: Seq<char>, path: Seq<char>) -> Diffs {
    let p = text_path(path);
    if lt == rt {
        Diffs::empty()
    } else if lt.len() == 0 {
        Diffs::single(DiffItemV { path: p, kind: DiffKind::Added, left: None, right: Some(rt) })
    } else if rt.len() == 0 {
        Diffs::single(DiffItemV { path: p, kind: DiffKind::Removed, left: Some(lt), right: None })
    } else {
        Diffs::single(DiffItemV { path: p, kind: DiffKind::Changed, left: Some(lt), right: Some(rt) })
    }
}

/// Number of nodes with the given tag.
pub open spec fn count_tag(nodes: Seq<XmlNodeV>, tag: Seq<char>) -> nat
    decreases nodes.len(),
{
    if nodes.len() == 0 {
        0
    } else {
        count_tag(nodes.drop_last(), tag) + if nodes.last().tag == tag { 1nat } else { 0nat }
    }
}

/// The path of a child compared on both sides: with its index when either
/// side has more than one child with that tag.
pub open spec fn child_path(
    path: Seq<char>,
    tag: Seq<char>,
    i: int,
    le: Seq<XmlNodeV>,
    re: Seq<XmlNodeV>,
) -> Seq<char> {
    if count_tag(le, tag) > 1 || count_tag(re, tag) > 1 {
        elem_path(path, tag) + seq!['['] + decimal(i as nat) + seq![']']
    } else {
        elem_path(path, tag)
    }
}

/// How the direct text of a summarized node is shown: quoted, and cut to
/// its first 47 bytes followed by `...` when longer than 50 bytes.
pub open spec fn summary_text_part(text: Seq<char>) -> Seq<char> {
    if utf8_len(text) > 50 {
        seq!['"'] + byte_prefix(text, 47) + "...\""@
    } else {
        seq!['"'] + text + seq!['"']
    }
}

/// A short description of a node: `<tag>`, its quoted text, the number of
/// attributes and of element children, those present, separated by spaces.
pub open spec fn summarize(n: XmlNodeV) -> Seq<char> {
    let text = direct_text(n);
    let p0 = seq![tag_display(n.tag)];
    let p1 = if text.len() > 0 { p0.push(summary_text_part(text)) } else { p0 };
    let p2 = if n.attributes.len() > 0 { p1.push(decimal(n.attributes.len()) + " attr(s)"@) } else { p1 };
    let nc = child_elems(n.children).len();
    let p3 = if nc > 0 { p2.push(decimal(nc) + " hijo(s)"@) } else { p2 };
    join(p3, seq![' '])
}

/// A node can be summarized: its direct text is at most 50 bytes long or
/// byte 47 falls on a character boundary (else the text cannot be cut there).
pub open spec fn summary_safe(n: XmlNodeV) -> bool {
    let text = direct_text(n);
    utf8_len(text) <= 50 || utf8_len(byte_prefix(text, 47)) == 47
}

pub open spec fn max_len(a: nat, b: nat) -> nat {
    if a >= b { a } else { b }
}

/// The differences between two XML nodes found under `path`.
///
/// Different tags give one change showing both tags, and nothing below.
/// Otherwise: the attribute differences, then the direct text difference,
/// then the element children compared by position.
pub open spec fn xml_diff(l: XmlNodeV, r: XmlNodeV, path: Seq<char>) -> Diffs
    decreases l, 2int, 0int,
{
    if l.tag != r.tag {
        Diffs::single(
            DiffItemV {
                path,
                kind: DiffKind::Changed,
                left: Some(tag_display(l.tag)),
                right: Some(tag_display(r.tag)),
            },
        )
    } else {
        attributes_diff(l.attributes, r.attributes, path).concat(
            text_diff(direct_text(l), direct_text(r), path),
        ).concat(
            children_diff(
                l,
                r,
                path,
                max_len(child_elems(l.children).len(), child_elems(r.children).len()) as int,
            ),
        )
    }
}

/// The differences of the first `n` child positions.
pub open spec fn children_diff(l: XmlNodeV, r: XmlNodeV, path: Seq<char>, n: int) -> Diffs
    decreases l, 1int, n,
{
    if n <= 0 {
        Diffs::empty()
    } else {
        children_diff(l, r, path, n - 1).concat(child_diff(l, r, path, n - 1))
    }
}

/// The differences at child position `i`.
pub open spec fn child_diff(l: XmlNodeV, r: XmlNodeV, path: Seq<char>, i: int) -> Diffs
    decreases l, 0int, 0int,
{
    let le = child_elems(l.children);
    let re = child_elems(r.children);
    if 0 <= i < le.len() && i < re.len() {
        let pos = elem_positions(l.children)[i];
        if 0 <= pos < l.children.len() {
            match l.children[pos] {
                XmlChildV::Node(ln) => xml_diff(ln, re[i], child_path(path, ln.tag, i, le, re)),
                XmlChildV::Text(_) => Diffs::empty(),
            }
        } else {
            Diffs::empty()
        }
    } else if 0 <= i < le.len() {
        Diffs::single(
            DiffItemV {
                path: elem_path(path, le[i].tag),
                kind: DiffKind::Removed,
                left: Some(summarize(le[i])),
                right: None,
            },
        )
    } else if 0 <= i < re.len() {
        Diffs::single(
            DiffItemV {
                path: elem_path(path, re[i].tag),
                kind: DiffKind::Added,
                left: None,
                right: Some(summarize(re[i])),
            },
        )
    } else {
        Diffs::empty()
    }
}

/// Every node that the comparison summarizes can be summarized.
pub open spec fn xml_safe(l: XmlNodeV, r: XmlNodeV) -> bool
    decreases l, 2int, 0int,
{
    l.tag != r.tag || children_safe(
        l,
        r,
        max_len(child_elems(l.children).len(), child_elems(r.children).len()) as int,
    )
}

pub open spec fn children_safe(l: XmlNodeV, r: XmlNodeV, n: int) -> bool
    decreases l, 1int, n,
{
    n <= 0 || (children_safe(l, r, n - 1) && child_safe(l, r, n - 1))
}

pub open spec fn child_safe(l: XmlNodeV, r: XmlNodeV, i: int) -> bool
    decreases l, 0int, 0int,
{
    let le = child_elems(l.children);
    let re = child_elems(r.children);
    if 0 <= i < le.len() && i < re.len() {
        let pos = elem_positions(l.children)[i];
        if 0 <= pos < l.children.len() {
            match l.children[pos] {
                XmlChildV::Node(ln) => xml_safe(ln, re[i]),
                XmlChildV::Text(_) => true,
            }
        } else {
            true
        }
    } else if 0 <= i < le.len() {
        summary_safe(le[i])
    } else if 0 <= i < re.len() {
        summary_safe(re[i])
    } else {
        true
    }
}

pub open spec fn keys_view(v: Seq<Vec<char>>) -> Seq<Seq<char>> {
    Seq::new(v.len(), |i: int| v[i]@)
}

fn insert_key_exec(keys: &mut Vec<Vec<char>>, k: Vec<char>)
    ensures
        keys_view(final(keys)@) == insert_key(keys_view(old(keys)@), k@),
{
    let ghost s = keys_view(keys@);
    let mut p: usize = 0;
    assert(s.skip(0) =~= s);
    assert(s.take(0) + insert_key(s.skip(0), k@) =~= insert_key(s, k@));
    while p < keys.len()
        invariant
            p <= keys.len(),
            s == keys_view(keys@),
            s == keys_view(old(keys)@),
            insert_key(s, k@) == s.take(p as int) + insert_key(s.skip(p as int), k@),
        decreases keys.len() - p,
    {
        let ghost t = s.skip(p as int);
        assert(t[0] == keys@[p as int]@);
        if chars_eq(&keys[p], &k) {
            assert(insert_key(t, k@) == t);
            assert(s.take(p as int) + t =~= s);
            return;
        }
        if chars_lt(&k, &keys[p]) {
            assert(insert_key(t, k@) == seq![k@] + t);
            keys.insert(p, k);
            assert(keys_view(keys@) =~= s.take(p as int) + (seq![k@] + t));
            return;
        }
        assert(t.drop_first() =~= s.skip(p + 1));
        assert(s.take(p + 1) =~= s.take(p as int).push(t[0]));
        assert(s.take(p as int) + (seq![t[0]] + insert_key(t.drop_first(), k@)) =~= s.take(p + 1)
            + insert_key(s.skip(p + 1), k@));
        p = p + 1;
    }
    assert(s.skip(p as int) =~= Seq::<Seq<char>>::empty());
    keys.push(k);
    assert(keys_view(keys@) =~= s.take(p as int) + seq![k@]);
}

fn attr_key_union(la: &Vec<(String, String)>, ra: &Vec<(String, String)>) -> (keys: Vec<Vec<char>>)
    ensures
        keys_view(keys@) == key_union(attr_keys(attrs_view(la@)) + attr_keys(attrs_view(ra@))),
{
    let ghost all = attr_keys(attrs_view(la@)) + attr_keys(attrs_view(ra@));
    let mut keys: Vec<Vec<char>> = Vec::new();
    let mut m: usize = 0;
    assert(all.take(0) =~= Seq::<Seq<char>>::empty());
    assert(keys_view(keys@) =~= Seq::<Seq<char>>::empty());
    while m < la.len()
        invariant
            m <= la.len(),
            all == attr_keys(attrs_view(la@)) + attr_keys(attrs_view(ra@)),
            keys_view(keys@) == key_union(all.take(m as int)),
        decreases la.len() - m,
    {
        assert(all[m as int] == la@[m as int].0@);
        assert(all.take(m + 1).drop_last() =~= all.take(m as int));
        insert_key_exec(&mut keys, chars_of(la[m].0.as_str()));
        m = m + 1;
    }
    let mut n: usize = 0;
    while n < ra.len()
        invariant
            n <= ra.len(),
            m == la.len(),
            all == attr_keys(attrs_view(la@)) + attr_keys(attrs_view(ra@)),
            all.len() == la.len() + ra.len(),
            keys_view(keys@) == key_union(all.take(m + n)),
        decreases ra.len() - n,
    {
        assert(all[m + n] == ra@[n as int].0@);
        assert(all.take(m + n + 1).drop_last() =~= all.take(m + n));
        insert_key_exec(&mut keys, chars_of(ra[n].0.as_str()));
        n = n + 1;
    }
    assert(all.take(m + n) =~= all);
    keys
}

fn lookup_attr<'a>(attrs: &'a Vec<(String, String)>, key: &Vec<char>) -> (r: Option<&'a String>)
    ensures
        match r {
            Some(v) => attr_lookup(attrs_view(attrs@), key@) == Some(v@),
            None => attr_lookup(attrs_view(attrs@), key@) is None,
        },
{
    let ghost a = attrs_view(attrs@);
    let mut i: usize = 0;
    assert(a.skip(0) =~= a);
    while i < attrs.len()
        invariant
            i <= attrs.len(),
            a == attrs_view(attrs@),
            attr_lookup(a, key@) == attr_lookup(a.skip(i as int), key@),
        decreases attrs.len() - i,
    {
        assert(a.skip(i as int).drop_first() =~= a.skip(i + 1));
        let k = chars_of(attrs[i].0.as_str());
        if chars_eq(&k, key) {
            return Some(&attrs[i].1);
        }
        i = i + 1;
    }
    None
}

fn attr_path_exec(path: &String, key: &Vec<char>) -> (s: String)
    ensures
        s@ == attr_path(path@, key@),
{
    let mut s = path.clone();
    s.append("[@");
    s.append(string_of(key).as_str());
    s.push(']');
    s
}

proof fn lemma_keys_push(
    la: Seq<(Seq<char>, Seq<char>)>,
    ra: Seq<(Seq<char>, Seq<char>)>,
    keys: Seq<Seq<char>>,
    k: Seq<char>,
    path: Seq<char>,
)
    ensures
        keys_diff(la, ra, keys.push(k), path) == keys_diff(la, ra, keys, path).concat(
            attr_key_diff(la, ra, k, path),
        ),
{
    assert(keys.push(k).drop_last() =~= keys);
}

/// Appends the attribute differences of two nodes.
#[verifier::loop_isolation(false)]
fn compare_attributes(
    la: &Vec<(String, String)>,
    ra: &Vec<(String, String)>,
    path: &String,
    result: &mut DiffResult,
)
    ensures
        final(result)@ == old(result)@.concat(attributes_diff(attrs_view(la@), attrs_view(ra@), path@)),
{
    let keys = attr_key_union(la, ra);
    let ghost kv = keys_view(keys@);
    let ghost lav = attrs_view(la@);
    let ghost rav = attrs_view(ra@);
    let ghost start = result@;
    proof {
        lemma_concat_empty(start);
        assert(kv.take(0) =~= Seq::<Seq<char>>::empty());
    }
    let mut i: usize = 0;
    while i < keys.len()
        invariant
            i <= keys.len(),
            result@ == start.concat(keys_diff(lav, rav, kv.take(i as int), path@)),
        decreases keys.len() - i,
    {
        let key = &keys[i];
        let p = attr_path_exec(path, key);
        let lv = lookup_attr(la, key);
        let rv = lookup_attr(ra, key);
        match (lv, rv) {
            (Some(a), Some(b)) => {
                if !str_eq(a.as_str(), b.as_str()) {
                    result.record(DiffItem { path: p, kind: DiffKind::Changed, left: Some(a.clone()), right: Some(b.clone()) });
                } else {
                    proof { lemma_concat_empty(result@); }
                }
            },
            (Some(a), None) => {
                result.record(DiffItem { path: p, kind: DiffKind::Removed, left: Some(a.clone()), right: None });
            },
            (None, Some(b)) => {
                result.record(DiffItem { path: p, kind: DiffKind::Added, left: None, right: Some(b.clone()) });
            },
            (None, None) => {
                proof { lemma_concat_empty(result@); }
            },
        }
        proof {
            assert(kv[i as int] == key@);
            assert(kv.take(i + 1) =~= kv.take(i as int).push(kv[i as int]));
            lemma_keys_push(lav, rav, kv.take(i as int), kv[i as int], path@);
            lemma_concat_assoc(start, keys_diff(lav, rav, kv.take(i as int), path@), attr_key_diff(lav, rav, kv[i as int], path@));
        }
        i = i + 1;
    }
    assert(kv.take(keys.len() as int) =~= kv);
}

fn count_tag_exec(nodes: &Vec<&XmlNode>, tag: &str) -> (n: usize)
    ensures
        n == count_tag(Seq::new(nodes@.len(), |k: int| nodes@[k]@), tag@),
{
    let ghost vs = Seq::new(nodes@.len(), |k: int| nodes@[k]@);
    let mut n: usize = 0;
    let mut i: usize = 0;
    while i < nodes.len()
        invariant
            i <= nodes.len(),
            vs == Seq::new(nodes@.len(), |k: int| nodes@[k]@),
            n == count_tag(vs.take(i as int), tag@),
            n <= i,
        decreases nodes.len() - i,
    {
        assert(vs.take(i + 1).drop_last() =~= vs.take(i as int));
        if str_eq(nodes[i].tag.as_str(), tag) {
            n = n + 1;
        }
        i = i + 1;
    }
    assert(vs.take(nodes.len() as int) =~= vs);
    n
}

/// A short description of a node for an added or removed child.
fn summarize_xml_node(node: &XmlNode) -> (s: String)
    requires
        summary_safe(node@),
    ensures
        s@ == summarize(node@),
{
    let text = node.text_content();
    let nodes = node.child_nodes();
    let ghost n = node@;
    let mut s = String::new();
    s.push('<');
    s.append(node.tag.as_str());
    s.push('>');
    let ghost p0 = seq![tag_display(n.tag)];
    assert(s@ =~= join(p0, seq![' ']));
    let ghost mut parts = p0;
    if !text.as_str().is_empty() {
        let tv = chars_of(text.as_str());
        let ghost part = summary_text_part(text@);
        s.push(' ');
        s.push('"');
        if utf8_longer_than(&tv, 50) {
            let pre = byte_prefix_of(&tv, 47);
            s.append(string_of(&pre).as_str());
            s.append("...\"");
        } else {
            s.append(text.as_str());
            s.push('"');
        }
        proof {
            lemma_join_push(parts, seq![' '], part);
            parts = parts.push(part);
        }
        assert(s@ =~= join(parts, seq![' ']));
    }
    if node.attributes.len() > 0 {
        let ghost part = decimal(n.attributes.len()) + " attr(s)"@;
        s.push(' ');
        s.append(usize_text(node.attributes.len()).as_str());
        s.append(" attr(s)");
        proof {
            lemma_join_push(parts, seq![' '], part);
            parts = parts.push(part);
        }
        assert(s@ =~= join(parts, seq![' ']));
    }
    if nodes.len() > 0 {
        let ghost part = decimal(child_elems(n.children).len()) + " hijo(s)"@;
        s.push(' ');
        s.append(usize_text(nodes.len()).as_str());
        s.append(" hijo(s)");
        proof {
            lemma_join_push(parts, seq![' '], part);
            parts = parts.push(part);
        }
        assert(s@ =~= join(parts, seq![' ']));
    }
    s
}

fn elem_path_exec(path: &String, tag: &String) -> (s: String)
    ensures
        s@ == elem_path(path@, tag@),
{
    let mut s = path.clone();
    s.push('.');
    s.append(tag.as_str());
    s
}

fn build_child_path(
    path: &String,
    tag: &String,
    index: usize,
    lefts: &Vec<&XmlNode>,
    rights: &Vec<&XmlNode>,
) -> (s: String)
    ensures
        s@ == child_path(
            path@,
            tag@,
            index as int,
            Seq::new(lefts@.len(), |k: int| lefts@[k]@),
            Seq::new(rights@.len(), |k: int| rights@[k]@),
        ),
{
    let cl = count_tag_exec(lefts, tag.as_str());
    let cr = count_tag_exec(rights, tag.as_str());
    let mut s = elem_path_exec(path, tag);
    if cl > 1 || cr > 1 {
        s.push('[');
        s.append(usize_text(index).as_str());
        s.push(']');
        assert(s@ =~= elem_path(path@, tag@) + seq!['['] + decimal(index as nat) + seq![']']);
    }
    s
}

/// Appends the differences of two nodes.
#[verifier::loop_isolation(false)]
fn compare_xml_nodes(left: &XmlNode, right: &XmlNode, path: &String, result: &mut DiffResult)
    requires
        xml_safe(left@, right@),
    ensures
        final(result)@ == old(result)@.concat(xml_diff(left@, right@, path@)),
    decreases left,
{
    let ghost l = left@;
    let ghost r = right@;
    let ghost start = result@;
    if !str_eq(left.tag.as_str(), right.tag.as_str()) {
        let mut lt = String::new();
        lt.push('<');
        lt.append(left.tag.as_str());
        lt.push('>');
        let mut rt = String::new();
        rt.push('<');
        rt.append(right.tag.as_str());
        rt.push('>');
        result.record(DiffItem { path: path.clone(), kind: DiffKind::Changed, left: Some(lt), right: Some(rt) });
        assert(tag_display(l.tag) =~= lt@);
        assert(tag_display(r.tag) =~= rt@);
        assert(l.tag != r.tag);
        return;
    }
    compare_attributes(&left.attributes, &right.attributes, path, result);
    let ghost after_attrs = result@;
    let ltext = left.text_content();
    let rtext = right.text_content();
    let ghost td = text_diff(direct_text(l), direct_text(r), path@);
    if !str_eq(ltext.as_str(), rtext.as_str()) {
        let mut tp = path.clone();
        tp.append(".[text]");
        assert(tp@ == text_path(path@));
        if ltext.as_str().is_empty() && !rtext.as_str().is_empty() {
            assert(td == Diffs::single(DiffItemV { path: tp@, kind: DiffKind::Added, left: None, right: Some(rtext@) }));
            result.record(DiffItem { path: tp, kind: DiffKind::Added, left: None, right: Some(rtext) });
        } else if !ltext.as_str().is_empty() && rtext.as_str().is_empty() {
            assert(td == Diffs::single(DiffItemV { path: tp@, kind: DiffKind::Removed, left: Some(ltext@), right: None }));
            result.record(DiffItem { path: tp, kind: DiffKind::Removed, left: Some(ltext), right: None });
        } else {
            proof {
                if ltext@.len() == 0 && rtext@.len() == 0 {
                    assert(ltext@ =~= rtext@);
                }
            }
            assert(td == Diffs::single(DiffItemV { path: tp@, kind: DiffKind::Changed, left: Some(ltext@), right: Some(rtext@) }));
            result.record(DiffItem { path: tp, kind: DiffKind::Changed, left: Some(ltext), right: Some(rtext) });
        }
    } else {
        assert(td == Diffs::empty());
        proof { lemma_concat_empty(result@); }
    }
    let ghost after_text = result@;
    assert(after_attrs == start.concat(attributes_diff(l.attributes, r.attributes, path@)));
    assert(after_text == after_attrs.concat(text_diff(direct_text(l), direct_text(r), path@)));
    let lnodes = left.child_nodes();
    let rnodes = right.child_nodes();
    let ghost le = child_elems(l.children);
    let ghost re = child_elems(r.children);
    assert(Seq::new(lnodes@.len(), |k: int| lnodes@[k]@) =~= le);
    assert(Seq::new(rnodes@.len(), |k: int| rnodes@[k]@) =~= re);
    let n: usize = if lnodes.len() >= rnodes.len() { lnodes.len() } else { rnodes.len() };
    proof { lemma_concat_empty(after_text); }
    let mut i: usize = 0;
    while i < n
        invariant
            i <= n,
            n == max_len(le.len(), re.len()),
            children_safe(l, r, n as int),
            result@ == after_text.concat(children_diff(l, r, path@, i as int)),
        decreases n - i,
    {
        proof {
            lemma_children_safe_prefix(l, r, n as int, i as int);
        }
        if i < lnodes.len() && i < rnodes.len() {
            let ln = lnodes[i];
            let rn = rnodes[i];
            let cp = build_child_path(path, &ln.tag, i, &lnodes, &rnodes);
            proof {
                let pos = elem_positions(l.children)[i as int];
                assert(left.children@[pos] == XmlChild::Node(*ln));
                assert(decreases_to!(left => left.children@[pos]));
                assert(l.children[pos] == XmlChildV::Node(ln@));
            }
            compare_xml_nodes(ln, rn, &cp, result);
        } else if i < lnodes.len() {
            let ln = lnodes[i];
            let item = DiffItem {
                path: elem_path_exec(path, &ln.tag),
                kind: DiffKind::Removed,
                left: Some(summarize_xml_node(ln)),
                right: None,
            };
            result.record(item);
        } else {
            let rn = rnodes[i];
            let item = DiffItem {
                path: elem_path_exec(path, &rn.tag),
                kind: DiffKind::Added,
                left: None,
                right: Some(summarize_xml_node(rn)),
            };
            result.record(item);
        }
        proof {
            lemma_concat_assoc(after_text, children_diff(l, r, path@, i as int), child_diff(l, r, path@, i as int));
        }
        i = i + 1;
    }
    proof {
        lemma_concat_assoc(start, attributes_diff(l.attributes, r.attributes, path@), text_diff(direct_text(l), direct_text(r), path@));
        lemma_concat_assoc(start.concat(attributes_diff(l.attributes, r.attributes, path@)), text_diff(direct_text(l), direct_text(r), path@), children_diff(l, r, path@, n as int));
        lemma_concat_assoc(start, attributes_diff(l.attributes, r.attributes, path@).concat(text_diff(direct_text(l), direct_text(r), path@)), children_diff(l, r, path@, n as int));
    }
}

proof fn lemma_children_safe_prefix(l: XmlNodeV, r: XmlNodeV, n: int, i: int)
    requires
        children_safe(l, r, n),
        0 <= i < n,
    ensures
        child_safe(l, r, i),
    decreases n,
{
    if i < n - 1 {
        lemma_children_safe_prefix(l, r, n - 1, i);
    }
}

proof fn lemma_keys_same(a: Seq<(Seq<char>, Seq<char>)>, keys: Seq<Seq<char>>, path: Seq<char>)
    ensures
        keys_diff(a, a, keys, path).total() == 0,
    decreases keys.len(),
{
    if keys.len() > 0 {
        lemma_keys_same(a, keys.drop_last(), path);
    }
}

proof fn lemma_child_same(n: XmlNodeV, path: Seq<char>, i: int)
    ensures
        child_diff(n, n, path, i).total() == 0,
        child_safe(n, n, i),
    decreases n, 0int, 0int,
{
    let le = child_elems(n.children);
    crate::parser::lemma_child_elems_positions(n.children);
    if 0 <= i < le.len() {
        let pos = elem_positions(n.children)[i];
        match n.children[pos] {
            XmlChildV::Node(ln) => {
                lemma_xml_same(ln, child_path(path, ln.tag, i, le, le));
            },
            XmlChildV::Text(_) => {},
        }
    }
}

proof fn lemma_children_same(n: XmlNodeV, path: Seq<char>, m: int)
    ensures
        children_diff(n, n, path, m).total() == 0,
        children_safe(n, n, m),
    decreases n, 1int, m,
{
    if m > 0 {
        lemma_children_same(n, path, m - 1);
        lemma_child_same(n, path, m - 1);
    }
}

proof fn lemma_xml_same(n: XmlNodeV, path: Seq<char>)
    ensures
        xml_diff(n, n, path).total() == 0,
        xml_safe(n, n),
    decreases n, 2int, 0int,
{
    lemma_keys_same(n.attributes, key_union(attr_keys(n.attributes) + attr_keys(n.attributes)), path);
    lemma_children_same(n, path, max_len(child_elems(n.children).len(), child_elems(n.children).len()) as int);
}

proof fn lemma_keys_placed(
    la: Seq<(Seq<char>, Seq<char>)>,
    ra: Seq<(Seq<char>, Seq<char>)>,
    keys: Seq<Seq<char>>,
    path: Seq<char>,
)
    ensures
        well_placed(keys_diff(la, ra, keys, path), path),
    decreases keys.len(),
{
    if keys.len() > 0 {
        lemma_keys_placed(la, ra, keys.drop_last(), path);
        let p = attr_path(path, keys.last());
        assert(p.subrange(0, path.len() as int) =~= path);
        let d = attr_key_diff(la, ra, keys.last(), path);
        match (attr_lookup(la, keys.last()), attr_lookup(ra, keys.last())) {
            (Some(lv), Some(rv)) => if lv != rv {
                lemma_placed_single(DiffItemV { path: p, kind: DiffKind::Changed, left: Some(lv), right: Some(rv) }, path);
            },
            (Some(lv), None) => lemma_placed_single(DiffItemV { path: p, kind: DiffKind::Removed, left: Some(lv), right: None }, path),
            (None, Some(rv)) => lemma_placed_single(DiffItemV { path: p, kind: DiffKind::Added, left: None, right: Some(rv) }, path),
            (None, None) => {},
        }
        lemma_placed_concat(keys_diff(la, ra, keys.drop_last(), path), d, path);
    }
}

proof fn lemma_text_placed(lt: Seq<char>, rt: Seq<char>, path: Seq<char>)
    ensures
        well_placed(text_diff(lt, rt, path), path),
{
    let p = text_path(path);
    assert(p.subrange(0, path.len() as int) =~= path);
    if lt != rt {
        if lt.len() == 0 {
            lemma_placed_single(DiffItemV { path: p, kind: DiffKind::Added, left: None, right: Some(rt) }, path);
        } else if rt.len() == 0 {
            lemma_placed_single(DiffItemV { path: p, kind: DiffKind::Removed, left: Some(lt), right: None }, path);
        } else {
            lemma_placed_single(DiffItemV { path: p, kind: DiffKind::Changed, left: Some(lt), right: Some(rt) }, path);
        }
    }
}

proof fn lemma_child_placed(l: XmlNodeV, r: XmlNodeV, path: Seq<char>, i: int)
    ensures
        well_placed(child_diff(l, r, path, i), path),
    decreases l, 0int, 0int,
{
    let le = child_elems(l.children);
    let re = child_elems(r.children);
    if 0 <= i < le.len() && i < re.len() {
        let pos = elem_positions(l.children)[i];
        if 0 <= pos < l.children.len() {
            match l.children[pos] {
                XmlChildV::Node(ln) => {
                    let cp = child_path(path, ln.tag, i, le, re);
                    assert(cp.subrange(0, path.len() as int) =~= path);
                    lemma_xml_placed(ln, re[i], cp);
                    lemma_placed_widen(xml_diff(ln, re[i], cp), path, cp);
                },
                XmlChildV::Text(_) => {},
            }
        }
    } else if 0 <= i < le.len() {
        let p = elem_path(path, le[i].tag);
        assert(p.subrange(0, path.len() as int) =~= path);
        lemma_placed_single(DiffItemV { path: p, kind: DiffKind::Removed, left: Some(summarize(le[i])), right: None }, path);
    } else if 0 <= i < re.len() {
        let p = elem_path(path, re[i].tag);
        assert(p.subrange(0, path.len() as int) =~= path);
        lemma_placed_single(DiffItemV { path: p, kind: DiffKind::Added, left: None, right: Some(summarize(re[i])) }, path);
    }
}

proof fn lemma_children_placed(l: XmlNodeV, r: XmlNodeV, path: Seq<char>, n: int)
    ensures
        well_placed(children_diff(l, r, path, n), path),
    decreases l, 1int, n,
{
    if n > 0 {
        lemma_children_placed(l, r, path, n - 1);
        lemma_child_placed(l, r, path, n - 1);
        lemma_placed_concat(children_diff(l, r, path, n - 1), child_diff(l, r, path, n - 1), path);
    }
}

/// Every difference between two XML trees lands in the list its kind
/// names, under a path that extends the starting path (the root's tag for
/// `diff_xml`).
pub proof fn lemma_xml_placed(l: XmlNodeV, r: XmlNodeV, path: Seq<char>)
    ensures
        well_placed(xml_diff(l, r, path), path),
    decreases l, 2int, 0int,
{
    if l.tag != r.tag {
        assert(path.subrange(0, path.len() as int) =~= path);
        lemma_placed_single(
            DiffItemV { path, kind: DiffKind::Changed, left: Some(tag_display(l.tag)), right: Some(tag_display(r.tag)) },
            path,
        );
    } else {
        let a = attributes_diff(l.attributes, r.attributes, path);
        let t = text_diff(direct_text(l), direct_text(r), path);
        let n = max_len(child_elems(l.children).len(), child_elems(r.children).len()) as int;
        lemma_keys_placed(l.attributes, r.attributes, key_union(attr_keys(l.attributes) + attr_keys(r.attributes)), path);
        lemma_text_placed(direct_text(l), direct_text(r), path);
        lemma_children_placed(l, r, path, n);
        lemma_placed_concat(a, t, path);
        lemma_placed_concat(a.concat(t), children_diff(l, r, path, n), path);
    }
}

/// A tree compared with itself shows no difference (and can always be
/// compared).
pub proof fn lemma_xml_diff_of_itself(n: XmlNodeV, path: Seq<char>)
    ensures
        xml_safe(n, n),
        xml_diff(n, n, path).total() == 0,
{
    lemma_xml_same(n, path);
}

fn summary_is_safe(node: &XmlNode) -> (b: bool)
    ensures
        b == summary_safe(node@),
{
    let text = node.text_content();
    let v = chars_of(text.as_str());
    if !utf8_longer_than(&v, 50) {
        return true;
    }
    let p = byte_prefix_of(&v, 47);
    utf8_longer_than(&p, 46) && !utf8_longer_than(&p, 47)
}

/// Whether two trees can be compared: every node that the comparison would
/// summarize has direct text of at most 50 bytes, or text whose 47th byte
/// ends a character. `diff_xml` requires it.
pub fn xml_comparable(left: &XmlNode, right: &XmlNode) -> (b: bool)
    ensures
        b == xml_safe(left@, right@),
    decreases left,
{
    let ghost l = left@;
    let ghost r = right@;
    if !str_eq(left.tag.as_str(), right.tag.as_str()) {
        return true;
    }
    let lnodes = left.child_nodes();
    let rnodes = right.child_nodes();
    let ghost le = child_elems(l.children);
    let ghost re = child_elems(r.children);
    assert(Seq::new(lnodes@.len(), |k: int| lnodes@[k]@) =~= le);
    assert(Seq::new(rnodes@.len(), |k: int| rnodes@[k]@) =~= re);
    let n: usize = if lnodes.len() >= rnodes.len() { lnodes.len() } else { rnodes.len() };
    let mut i: usize = 0;
    while i < n
        invariant
            i <= n,
            n == max_len(le.len(), re.len()),
            l == left@,
            r == right@,
            l.tag == r.tag,
            le == child_elems(l.children),
            re == child_elems(r.children),
            lnodes@.len() == le.len(),
            rnodes@.len() == re.len(),
            forall|k: int| 0 <= k < lnodes@.len() ==> (#[trigger] lnodes@[k])@ == le[k],
            forall|k: int| 0 <= k < rnodes@.len() ==> (#[trigger] rnodes@[k])@ == re[k],
            forall|k: int|
                0 <= k < lnodes@.len() ==> {
                    &&& 0 <= #[trigger] elem_positions(l.children)[k] < left.children@.len()
                    &&& left.children@[elem_positions(l.children)[k]] == XmlChild::Node(*lnodes@[k])
                },
            children_safe(l, r, i as int),
        decreases n - i,
    {
        let ok = if i < lnodes.len() && i < rnodes.len() {
            let ln = lnodes[i];
            proof {
                let pos = elem_positions(l.children)[i as int];
                assert(left.children@[pos] == XmlChild::Node(*ln));
                assert(decreases_to!(left => left.children@[pos]));
                assert(l.children[pos] == XmlChildV::Node(ln@));
                assert(0 <= pos < l.children.len());
                assert(re[i as int] == rnodes@[i as int]@);
            }
            let c = xml_comparable(ln, rnodes[i]);
            assert(c == child_safe(l, r, i as int));
            c
        } else if i < lnodes.len() {
            summary_is_safe(lnodes[i])
        } else {
            summary_is_safe(rnodes[i])
        };
        if !ok {
            assert(!child_safe(l, r, i as int));
            proof {
                if children_safe(l, r, n as int) {
                    lemma_children_safe_prefix(l, r, n as int, i as int);
                }
            }
            return false;
        }
        assert(child_safe(l, r, i as int));
        assert(children_safe(l, r, i + 1));
        i = i + 1;
    }
    true
}

/// The semantic differences between two XML trees; paths start at the
/// left root's tag.
pub fn diff_xml(left: &XmlNode, right: &XmlNode) -> (r: DiffResult)
    requires
        xml_safe(left@, right@),
    ensures
        r@ == xml_diff(left@, right@, left.tag@),
{
    let mut result = DiffResult::new();
    let root = left.tag.clone();
    compare_xml_nodes(left, right, &root, &mut result);
    proof {
        let d = xml_diff(left@, right@, left.tag@);
        assert(Diffs::empty().concat(d).added =~= d.added);
        assert(Diffs::empty().concat(d).removed =~= d.removed);
        assert(Diffs::empty().concat(d).changed =~= d.changed);
    }
    result
}

/// A difference of one attribute: it sits at the attribute's path, and
/// each side shows that side's value for the key (none where the key is
/// missing).
pub open spec fn shows_attribute(it: DiffItemV, la: Seq<(Seq<char>, Seq<char>)>, ra: Seq<(Seq<char>, Seq<char>)>, path: Seq<char>) -> bool {
    exists|k: Seq<char>|
        it.path == #[trigger] attr_path(path, k) && it.left == attr_lookup(la, k) && it.right == attr_lookup(ra, k)
}

pub open spec fn all_show_attributes(d: Diffs, la: Seq<(Seq<char>, Seq<char>)>, ra: Seq<(Seq<char>, Seq<char>)>, path: Seq<char>) -> bool {
    &&& forall|i: int| 0 <= i < d.added.len() ==> shows_attribute(#[trigger] d.added[i], la, ra, path)
    &&& forall|i: int| 0 <= i < d.removed.len() ==> shows_attribute(#[trigger] d.removed[i], la, ra, path)
    &&& forall|i: int| 0 <= i < d.changed.len() ==> shows_attribute(#[trigger] d.changed[i], la, ra, path)
}

proof fn lemma_keys_show_attributes(
    la: Seq<(Seq<char>, Seq<char>)>,
    ra: Seq<(Seq<char>, Seq<char>)>,
    keys: Seq<Seq<char>>,
    path: Seq<char>,
)
    ensures
        all_show_attributes(keys_diff(la, ra, keys, path), la, ra, path),
        forall|k: Seq<char>|
            #![trigger keys.contains(k), attr_path(path, k)]
            keys.contains(k) && attr_lookup(la, k) is Some && attr_lookup(ra, k) is Some && attr_lookup(la, k) != attr_lookup(ra, k)
                ==> keys_diff(la, ra, keys, path).changed.contains(
                DiffItemV {
                    path: attr_path(path, k),
                    kind: DiffKind::Changed,
                    left: attr_lookup(la, k),
                    right: attr_lookup(ra, k),
                },
            ),
    decreases keys.len(),
{
    if keys.len() > 0 {
        let init = keys.drop_last();
        let k0 = keys.last();
        lemma_keys_show_attributes(la, ra, init, path);
        let a = keys_diff(la, ra, init, path);
        let b = attr_key_diff(la, ra, k0, path);
        let d = keys_diff(la, ra, keys, path);
        assert(d == a.concat(b));
        assert(all_show_attributes(b, la, ra, path)) by {
            let p = attr_path(path, k0);
            assert forall|i: int| 0 <= i < b.added.len() implies shows_attribute(#[trigger] b.added[i], la, ra, path) by {
                assert(b.added[i].path == p);
            }
            assert forall|i: int| 0 <= i < b.removed.len() implies shows_attribute(#[trigger] b.removed[i], la, ra, path) by {
                assert(b.removed[i].path == p);
            }
            assert forall|i: int| 0 <= i < b.changed.len() implies shows_attribute(#[trigger] b.changed[i], la, ra, path) by {
                assert(b.changed[i].path == p);
            }
        }
        assert forall|i: int| 0 <= i < d.added.len() implies shows_attribute(#[trigger] d.added[i], la, ra, path) by {
            if i < a.added.len() {
                assert(d.added[i] == a.added[i]);
            } else {
                assert(d.added[i] == b.added[i - a.added.len()]);
            }
        }
        assert forall|i: int| 0 <= i < d.removed.len() implies shows_attribute(#[trigger] d.removed[i], la, ra, path) by {
            if i < a.removed.len() {
                assert(d.removed[i] == a.removed[i]);
            } else {
                assert(d.removed[i] == b.removed[i - a.removed.len()]);
            }
        }
        assert forall|i: int| 0 <= i < d.changed.len() implies shows_attribute(#[trigger] d.changed[i], la, ra, path) by {
            if i < a.changed.len() {
                assert(d.changed[i] == a.changed[i]);
            } else {
                assert(d.changed[i] == b.changed[i - a.changed.len()]);
            }
        }
        assert forall|k: Seq<char>|
            #![trigger keys.contains(k), attr_path(path, k)]
            keys.contains(k) && attr_lookup(la, k) is Some && attr_lookup(ra, k) is Some && attr_lookup(la, k) != attr_lookup(ra, k)
                implies d.changed.contains(
                DiffItemV {
                    path: attr_path(path, k),
                    kind: DiffKind::Changed,
                    left: attr_lookup(la, k),
                    right: attr_lookup(ra, k),
                },
            ) by {
            let it = DiffItemV {
                path: attr_path(path, k),
                kind: DiffKind::Changed,
                left: attr_lookup(la, k),
                right: attr_lookup(ra, k),
            };
            let j = choose|j: int| 0 <= j < keys.len() && keys[j] == k;
            if j < init.len() {
                assert(init[j] == k);
                assert(init.contains(k));
                let m = choose|m: int| 0 <= m < a.changed.len() && a.changed[m] == it;
                assert(d.changed[m] == it);
            } else {
                assert(k == k0);
                assert(b.changed[0] == it);
                assert(d.changed[a.changed.len() as int] == it);
            }
        }
    }
}

proof fn lemma_insert_key_contains(s: Seq<Seq<char>>, k: Seq<char>)
    ensures
        insert_key(s, k).contains(k),
        forall|x: Seq<char>| s.contains(x) ==> #[trigger] insert_key(s, k).contains(x),
    decreases s.len(),
{
    let t = insert_key(s, k);
    if s.len() == 0 {
        assert(t[0] == k);
    } else if s[0] == k {
        assert(t[0] == k);
    } else if seq_lt(k, s[0]) {
        assert(t[0] == k);
        assert forall|x: Seq<char>| s.contains(x) implies #[trigger] t.contains(x) by {
            let j = choose|j: int| 0 <= j < s.len() && s[j] == x;
            assert(t[j + 1] == x);
        }
    } else {
        let rest = s.drop_first();
        lemma_insert_key_contains(rest, k);
        let u = insert_key(rest, k);
        assert(t == seq![s[0]] + u);
        let ju = choose|j: int| 0 <= j < u.len() && u[j] == k;
        assert(t[ju + 1] == k);
        assert forall|x: Seq<char>| s.contains(x) implies #[trigger] t.contains(x) by {
            let j = choose|j: int| 0 <= j < s.len() && s[j] == x;
            if j == 0 {
                assert(t[0] == x);
            } else {
                assert(rest[j - 1] == x);
                assert(rest.contains(x));
                assert(insert_key(rest, k).contains(x));
                assert(u.contains(x));
                let m = choose|m: int| 0 <= m < u.len() && u[m] == x;
                assert(t[m + 1] == x);
            }
        }
    }
}

proof fn lemma_key_union_contains(keys: Seq<Seq<char>>)
    ensures
        forall|x: Seq<char>| keys.contains(x) ==> #[trigger] key_union(keys).contains(x),
    decreases keys.len(),
{
    if keys.len() > 0 {
        let init = keys.drop_last();
        lemma_key_union_contains(init);
        lemma_insert_key_contains(key_union(init), keys.last());
        assert forall|x: Seq<char>| keys.contains(x) implies #[trigger] key_union(keys).contains(x) by {
            let j = choose|j: int| 0 <= j < keys.len() && keys[j] == x;
            if j < init.len() {
                assert(init[j] == x);
                assert(init.contains(x));
            }
        }
    }
}

proof fn lemma_lookup_has_key(a: Seq<(Seq<char>, Seq<char>)>, k: Seq<char>)
    requires
        attr_lookup(a, k) is Some,
    ensures
        attr_keys(a).contains(k),
    decreases a.len(),
{
    if a[0].0 == k {
        assert(attr_keys(a)[0] == k);
    } else {
        lemma_lookup_has_key(a.drop_first(), k);
        let j = choose|j: int| 0 <= j < attr_keys(a.drop_first()).len() && attr_keys(a.drop_first())[j] == k;
        assert(attr_keys(a)[j + 1] == k);
    }
}

/// Attributes are compared by key, each side keeping its own value: for two
/// nodes with the same tag, a key whose values differ gives a change at the
/// attribute's path with the left node's value on the left and the right
/// node's value on the right; and every attribute difference (added,
/// removed or changed) shows on each side that side's value for its key.
pub proof fn lemma_attribute_values_keep_their_sides(l: XmlNodeV, r: XmlNodeV, path: Seq<char>, key: Seq<char>)
    requires
        l.tag == r.tag,
    ensures
        attr_lookup(l.attributes, key) is Some && attr_lookup(r.attributes, key) is Some && attr_lookup(l.attributes, key)
            != attr_lookup(r.attributes, key) ==> xml_diff(l, r, path).changed.contains(
            DiffItemV {
                path: attr_path(path, key),
                kind: DiffKind::Changed,
                left: attr_lookup(l.attributes, key),
                right: attr_lookup(r.attributes, key),
            },
        ),
        all_show_attributes(attributes_diff(l.attributes, r.attributes, path), l.attributes, r.attributes, path),
{
    let la = l.attributes;
    let ra = r.attributes;
    let keys = key_union(attr_keys(la) + attr_keys(ra));
    lemma_keys_show_attributes(la, ra, keys, path);
    if attr_lookup(la, key) is Some && attr_lookup(ra, key) is Some && attr_lookup(la, key) != attr_lookup(ra, key) {
        lemma_lookup_has_key(la, key);
        let j = choose|j: int| 0 <= j < attr_keys(la).len() && attr_keys(la)[j] == key;
        assert((attr_keys(la) + attr_keys(ra))[j] == key);
        lemma_key_union_contains(attr_keys(la) + attr_keys(ra));
        assert(keys.contains(key));
        let it = DiffItemV {
            path: attr_path(path, key),
            kind: DiffKind::Changed,
            left: attr_lookup(la, key),
            right: attr_lookup(ra, key),
        };
        let ad = attributes_diff(la, ra, path);
        assert(ad.changed.contains(it));
        let rest = text_diff(direct_text(l), direct_text(r), path).concat(
            children_diff(l, r, path, max_len(child_elems(l.children).len(), child_elems(r.children).len()) as int),
        );
        let whole = xml_diff(l, r, path);
        crate::diff_engine::lemma_concat_assoc(
            ad,
            text_diff(direct_text(l), direct_text(r), path),
            children_diff(l, r, path, max_len(child_elems(l.children).len(), child_elems(r.children).len()) as int),
        );
        assert(whole == ad.concat(rest));
        let m = choose|m: int| 0 <= m < ad.changed.len() && ad.changed[m] == it;
        assert(whole.changed[m] == it);
    }
}

} // verus!
