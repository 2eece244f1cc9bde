//! What the editors highlight after a comparison: the lines that a line
//! diff marks, and the values and keys of each difference, searched for in
//! the document text. The editors apply the marks; this module decides them.

use vstd::prelude::*;
use crate::diff_engine::{DiffItem, DiffItemV, DiffKind, DiffResult, Diffs, items_view};
use crate::text::{chars_of, slice_chars, string_of, trim_chars, trimmed};

verus! {

// Search values and keys

/// A value as searched for in a document: trimmed, without the quotes of a
/// JSON string.
pub open spec fn clean_value(v: Seq<char>) -> Seq<char> {
    let t = trimmed(v);
    if t.len() >= 2 && t[0] == '"' && t[t.len() - 1] == '"' {
        t.subrange(1, t.len() - 1)
    } else {
        t
    }
}

/// Trims a value and removes the quotes around a JSON string.
pub fn clean_search_value(value: &str) -> (s: String)
    ensures
        s@ == clean_value(value@),
{
    let v = chars_of(value);
    let t = trim_chars(&v);
    let n = t.len();
    if n >= 2 && t[0] == '"' && t[n - 1] == '"' {
        string_of(&slice_chars(&t, 1, n - 1))
    } else {
        string_of(&t)
    }
}

/// The last position of `c` in `s`.
pub open spec fn last_index(s: Seq<char>, c: char) -> Option<int>
    decreases s.len(),
{
    if s.len() == 0 {
        None
    } else if s.last() == c {
        Some(s.len() - 1)
    } else {
        last_index(s.drop_last(), c)
    }
}

/// The last position where `[@` starts in `s`.
pub open spec fn last_attr_marker(s: Seq<char>) -> Option<int>
    decreases s.len(),
{
    if s.len() < 2 {
        None
    } else if s[s.len() - 2] == '[' && s[s.len() - 1] == '@' {
        Some(s.len() - 2)
    } else {
        last_attr_marker(s.drop_last())
    }
}

/// The first position of `c` in `s` at or after `from`.
pub open spec fn index_from(s: Seq<char>, c: char, from: int) -> Option<int>
    decreases s.len() - from,
{
    if from < 0 || from >= s.len() {
        None
    } else if s[from] == c {
        Some(from)
    } else {
        index_from(s, c, from + 1)
    }
}

/// What follows the last `.` (all of `s` without one).
pub open spec fn last_segment(s: Seq<char>) -> Seq<char> {
    match last_index(s, '.') {
        Some(i) => s.subrange(i + 1, s.len() as int),
        None => s,
    }
}

/// `s` with every trailing `.[text]` removed.
pub open spec fn strip_text_suffixes(s: Seq<char>) -> Seq<char>
    decreases s.len(),
{
    if s.len() >= 7 && s.subrange(s.len() - 7, s.len() as int) == ".[text]"@ {
        strip_text_suffixes(s.subrange(0, s.len() - 7))
    } else {
        s
    }
}

/// The key a difference path ends in: the name of a trailing `[@attr]`;
/// for a `[text]` path the element before it; else the last segment,
/// without an array index.
pub open spec fn path_key(path: Seq<char>) -> Seq<char> {
    let attr = match last_attr_marker(path) {
        Some(start) => match index_from(path, ']', start) {
            Some(end) => Some(path.subrange(start + 2, end)),
            None => None,
        },
        None => None,
    };
    match attr {
        Some(k) => k,
        None => if path.len() >= 6 && path.subrange(path.len() - 6, path.len() as int) == "[text]"@ {
            last_segment(strip_text_suffixes(path))
        } else {
            let last = last_segment(path);
            match last_index(last, '[') {
                Some(b) => if b > 0 {
                    last.subrange(0, b)
                } else {
                    last
                },
                None => last,
            }
        },
    }
}

proof fn lemma_index_from_range(s: Seq<char>, c: char, from: int)
    ensures
        index_from(s, c, from) matches Some(i) ==> from <= i < s.len() && s[i] == c,
    decreases s.len() - from,
{
    if 0 <= from < s.len() && s[from] != c {
        lemma_index_from_range(s, c, from + 1);
    }
}

fn last_index_exec(v: &Vec<char>, c: char) -> (r: Option<usize>)
    ensures
        match r {
            Some(i) => last_index(v@, c) == Some(i as int) && i < v@.len(),
            None => last_index(v@, c) is None,
        },
{
    let mut n: usize = v.len();
    assert(v@.take(n as int) =~= v@);
    while n > 0
        invariant
            n <= v.len(),
            last_index(v@, c) == last_index(v@.take(n as int), c),
        decreases n,
    {
        assert(v@.take(n as int).drop_last() =~= v@.take(n - 1));
        if v[n - 1] == c {
            return Some(n - 1);
        }
        n = n - 1;
    }
    None
}

fn last_attr_marker_exec(v: &Vec<char>) -> (r: Option<usize>)
    ensures
        match r {
            Some(i) => last_attr_marker(v@) == Some(i as int) && i + 2 <= v@.len() && v@[i as int] == '['
                && v@[i + 1] == '@',
            None => last_attr_marker(v@) is None,
        },
{
    let mut n: usize = v.len();
    assert(v@.take(n as int) =~= v@);
    while n >= 2
        invariant
            n <= v.len(),
            last_attr_marker(v@) == last_attr_marker(v@.take(n as int)),
        decreases n,
    {
        assert(v@.take(n as int).drop_last() =~= v@.take(n - 1));
        if v[n - 2] == '[' && v[n - 1] == '@' {
            return Some(n - 2);
        }
        n = n - 1;
    }
    None
}

fn index_from_exec(v: &Vec<char>, c: char, from: usize) -> (r: Option<usize>)
    ensures
        match r {
            Some(i) => index_from(v@, c, from as int) == Some(i as int) && from <= i < v@.len(),
            None => index_from(v@, c, from as int) is None,
        },
{
    let mut i = from;
    while i < v.len()
        invariant
            from <= i,
            index_from(v@, c, from as int) == index_from(v@, c, i as int),
        decreases v.len() - i,
    {
        if v[i] == c {
            return Some(i);
        }
        i = i + 1;
    }
    None
}

fn last_segment_exec(v: &Vec<char>) -> (r: Vec<char>)
    ensures
        r@ == last_segment(v@),
{
    match last_index_exec(v, '.') {
        Some(i) => {
            assert(i < v.len());
            slice_chars(v, i + 1, v.len())
        },
        None => slice_chars(v, 0, v.len()),
    }
}

fn ends_with_chars(v: &Vec<char>, pat: &str) -> (b: bool)
    ensures
        b == (v@.len() >= pat@.len() && v@.subrange(v@.len() - pat@.len(), v@.len() as int) == pat@),
{
    let p = chars_of(pat);
    if p.len() > v.len() {
        return false;
    }
    let off = v.len() - p.len();
    let mut i: usize = 0;
    while i < p.len()
        invariant
            i <= p.len(),
            off == v.len() - p.len(),
            p@ == pat@,
            forall|k: int| 0 <= k < i ==> v@[off + k] == p@[k],
        decreases p.len() - i,
    {
        if v[off + i] != p[i] {
            assert(v@.subrange(off as int, v@.len() as int)[i as int] != pat@[i as int]);
            return false;
        }
        i = i + 1;
    }
    assert(v@.subrange(off as int, v@.len() as int) =~= pat@);
    true
}

/// The key named at the end of a difference path: `$.a.b` gives `b`,
/// `$.items[2]` gives `items`, `config.db[@host]` gives `host`, and
/// `root.[text]` gives `root`.
pub fn extract_key_from_path(path: &str) -> (s: String)
    ensures
        s@ == path_key(path@),
{
    proof {
        reveal_strlit(".[text]");
        reveal_strlit("[text]");
    }
    let v = chars_of(path);
    match last_attr_marker_exec(&v) {
        Some(start) => match index_from_exec(&v, ']', start) {
            Some(end) => {
                proof {
                    assert(index_from(v@, ']', start as int) == index_from(v@, ']', start + 1));
                    assert(index_from(v@, ']', start + 1) == index_from(v@, ']', start + 2));
                    lemma_index_from_range(v@, ']', start + 2);
                }
                return string_of(&slice_chars(&v, start + 2, end));
            },
            None => {},
        },
        None => {},
    }
    if ends_with_chars(&v, "[text]") {
        let mut w = slice_chars(&v, 0, v.len());
        assert(w@ =~= v@);
        while ends_with_chars(&w, ".[text]")
            invariant
                strip_text_suffixes(w@) == strip_text_suffixes(v@),
            decreases w.len(),
        {
            proof {
                reveal_strlit(".[text]");
            }
            let ghost old_w = w@;
            assert(old_w.len() >= 7);
            w = slice_chars(&w, 0, w.len() - 7);
            assert(strip_text_suffixes(old_w) == strip_text_suffixes(w@));
        }
        return string_of(&last_segment_exec(&w));
    }
    let last = last_segment_exec(&v);
    match last_index_exec(&last, '[') {
        Some(b) => {
            if b > 0 {
                string_of(&slice_chars(&last, 0, b))
            } else {
                string_of(&last)
            }
        },
        None => string_of(&last),
    }
}

/// What follows the last `.` of a path.
pub fn extract_last_segment(path: &str) -> (s: String)
    ensures
        s@ == last_segment(path@),
{
    let v = chars_of(path);
    string_of(&last_segment_exec(&v))
}

// Highlight marks

/// The colour a highlight is painted in.
#[derive(Debug, Clone, Copy, PartialEq, Eq, Structural)]
pub enum Mark {
    Added,
    Removed,
    Changed,
}

/// One of the two editors.
#[derive(Debug, Clone, Copy, PartialEq, Eq, Structural)]
pub enum Side {
    Left,
    Right,
}

/// The mark a difference gets on a side, if it shows there: removals and
/// changes on the left, additions and changes on the right.
pub open spec fn side_mark(kind: DiffKind, side: Side) -> Option<Mark> {
    match (side, kind) {
        (Side::Left, DiffKind::Removed) => Some(Mark::Removed),
        (Side::Left, DiffKind::Changed) => Some(Mark::Changed),
        (Side::Right, DiffKind::Added) => Some(Mark::Added),
        (Side::Right, DiffKind::Changed) => Some(Mark::Changed),
        _ => None,
    }
}

/// The value of a difference on a side.
pub open spec fn side_value(d: DiffItemV, side: Side) -> Seq<char> {
    match side {
        Side::Left => match d.left {
            Some(v) => v,
            None => Seq::empty(),
        },
        Side::Right => match d.right {
            Some(v) => v,
            None => Seq::empty(),
        },
    }
}

/// The texts to highlight for one difference on a side: its cleaned value
/// and, when the path names a key, that key in quotes.
pub open spec fn item_marks(d: DiffItemV, side: Side) -> Seq<(Seq<char>, Mark)> {
    match side_mark(d.kind, side) {
        None => Seq::empty(),
        Some(m) => {
            let v = side_value(d, side);
            let c = clean_value(v);
            if v.len() == 0 || c.len() == 0 {
                Seq::empty()
            } else {
                let k = path_key(d.path);
                if k.len() > 0 {
                    seq![(c, m), (seq!['"'] + k + seq!['"'], m)]
                } else {
                    seq![(c, m)]
                }
            }
        },
    }
}

pub open spec fn items_marks(items: Seq<DiffItemV>, side: Side) -> Seq<(Seq<char>, Mark)>
    decreases items.len(),
{
    if items.len() == 0 {
        Seq::empty()
    } else {
        items_marks(items.drop_last(), side) + item_marks(items.last(), side)
    }
}

/// What a side highlights, in order: on the left the removed then changed
/// differences, on the right the added then changed ones.
pub open spec fn semantic_marks(d: Diffs, side: Side) -> Seq<(Seq<char>, Mark)> {
    match side {
        Side::Left => items_marks(d.removed + d.changed, Side::Left),
        Side::Right => items_marks(d.added + d.changed, Side::Right),
    }
}

pub open spec fn marks_view(v: Seq<(String, Mark)>) -> Seq<(Seq<char>, Mark)> {
    Seq::new(v.len(), |i: int| (v[i].0@, v[i].1))
}

fn push_item_marks(out: &mut Vec<(String, Mark)>, item: &DiffItem, side: Side)
    ensures
        marks_view(final(out)@) == marks_view(old(out)@) + item_marks(item@, side),
{
    let ghost before = marks_view(out@);
    let mark = match (side, item.kind) {
        (Side::Left, DiffKind::Removed) => Mark::Removed,
        (Side::Left, DiffKind::Changed) => Mark::Changed,
        (Side::Right, DiffKind::Added) => Mark::Added,
        (Side::Right, DiffKind::Changed) => Mark::Changed,
        _ => {
            assert(marks_view(out@) =~= before + item_marks(item@, side));
            return;
        },
    };
    let value: &str = match side {
        Side::Left => match &item.left {
            Some(v) => v.as_str(),
            None => "",
        },
        Side::Right => match &item.right {
            Some(v) => v.as_str(),
            None => "",
        },
    };
    proof {
        reveal_strlit("");
    }
    assert(value@ == side_value(item@, side));
    if value.unicode_len() == 0 {
        assert(marks_view(out@) =~= before + item_marks(item@, side));
        return;
    }
    let clean = clean_search_value(value);
    if clean.as_str().unicode_len() == 0 {
        assert(marks_view(out@) =~= before + item_marks(item@, side));
        return;
    }
    assert(side_mark(item.kind, side) == Some(mark));
    let ghost c = clean@;
    out.push((clean, mark));
    assert(marks_view(out@) =~= before.push((c, mark)));
    let key = extract_key_from_path(item.path.as_str());
    if key.as_str().unicode_len() > 0 {
        let mut quoted = String::new();
        quoted.push('"');
        quoted.append(key.as_str());
        quoted.push('"');
        let ghost q = quoted@;
        assert(q =~= seq!['"'] + key@ + seq!['"']);
        let ghost mid = marks_view(out@);
        out.push((quoted, mark));
        assert(marks_view(out@) =~= mid.push((q, mark)));
        assert(item_marks(item@, side) =~= seq![(c, mark), (q, mark)]);
    } else {
        assert(item_marks(item@, side) =~= seq![(c, mark)]);
    }
    assert(marks_view(out@) =~= before + item_marks(item@, side));
}

fn push_list_marks(out: &mut Vec<(String, Mark)>, items: &Vec<DiffItem>, side: Side)
    ensures
        marks_view(final(out)@) == marks_view(old(out)@) + items_marks(items_view(items@), side),
{
    let ghost start = marks_view(out@);
    let ghost iv = items_view(items@);
    let mut i: usize = 0;
    assert(iv.take(0) =~= Seq::<DiffItemV>::empty());
    assert(marks_view(out@) =~= start + items_marks(iv.take(0), side));
    while i < items.len()
        invariant
            i <= items.len(),
            iv == items_view(items@),
            marks_view(out@) == start + items_marks(iv.take(i as int), side),
        decreases items.len() - i,
    {
        assert(iv.take(i + 1).drop_last() =~= iv.take(i as int));
        assert(iv.take(i + 1).last() == items@[i as int]@);
        push_item_marks(out, &items[i], side);
        i = i + 1;
        assert(marks_view(out@) =~= start + items_marks(iv.take(i as int), side));
    }
    assert(iv.take(items.len() as int) =~= iv);
}

proof fn lemma_items_marks_append(a: Seq<DiffItemV>, b: Seq<DiffItemV>, side: Side)
    ensures
        items_marks(a + b, side) == items_marks(a, side) + items_marks(b, side),
    decreases b.len(),
{
    if b.len() == 0 {
        assert(a + b =~= a);
        assert(items_marks(a, side) + items_marks(b, side) =~= items_marks(a, side));
    } else {
        assert((a + b).drop_last() =~= a + b.drop_last());
        lemma_items_marks_append(a, b.drop_last(), side);
        assert(items_marks(a + b, side) =~= items_marks(a, side) + items_marks(b, side));
    }
}

/// The texts one editor highlights for a result, each with its colour, in
/// the order they are applied.
pub fn semantic_highlights(result: &DiffResult, side: Side) -> (marks: Vec<(String, Mark)>)
    ensures
        marks_view(marks@) == semantic_marks(result@, side),
{
    let mut out: Vec<(String, Mark)> = Vec::new();
    assert(marks_view(out@) =~= Seq::<(Seq<char>, Mark)>::empty());
    match side {
        Side::Left => {
            push_list_marks(&mut out, &result.removed, Side::Left);
            push_list_marks(&mut out, &result.changed, Side::Left);
            proof {
                lemma_items_marks_append(result@.removed, result@.changed, Side::Left);
            }
        },
        Side::Right => {
            push_list_marks(&mut out, &result.added, Side::Right);
            push_list_marks(&mut out, &result.changed, Side::Right);
            proof {
                lemma_items_marks_append(result@.added, result@.changed, Side::Right);
            }
        },
    }
    out
}

/// What each editor is scrolled to for a selected difference: the cleaned
/// left and right values, or the path's key on both sides when it has none.
pub open spec fn scroll_targets(d: DiffItemV) -> (Option<Seq<char>>, Option<Seq<char>>) {
    match (d.left, d.right) {
        (None, None) => (Some(path_key(d.path)), Some(path_key(d.path))),
        (l, r) => (
            match l {
                Some(v) => Some(clean_value(v)),
                None => None,
            },
            match r {
                Some(v) => Some(clean_value(v)),
                None => None,
            },
        ),
    }
}

/// The texts to find in the left and right editors for a selected difference.
pub fn item_search_targets(item: &DiffItem) -> (r: (Option<String>, Option<String>))
    ensures
        crate::diff_engine::opt_view(r.0) == scroll_targets(item@).0,
        crate::diff_engine::opt_view(r.1) == scroll_targets(item@).1,
{
    if item.left.is_none() && item.right.is_none() {
        let k = extract_key_from_path(item.path.as_str());
        let k2 = extract_key_from_path(item.path.as_str());
        return (Some(k), Some(k2));
    }
    let l = match &item.left {
        Some(v) => Some(clean_search_value(v.as_str())),
        None => None,
    };
    let r = match &item.right {
        Some(v) => Some(clean_search_value(v.as_str())),
        None => None,
    };
    (l, r)
}

// Line marks

/// How a line fares in a line-by-line diff.
#[derive(Debug, Clone, Copy, PartialEq, Eq, Structural)]
pub enum LineChange {
    Equal,
    Delete,
    Insert,
}

/// The sequence of line changes `similar::TextDiff::from_lines` reports for
/// two texts, in order.
pub uninterp spec fn text_line_changes(left: Seq<char>, right: Seq<char>) -> Seq<LineChange>;

/// `similar::TextDiff::from_lines(left, right).iter_all_changes()`, each
/// change reduced to its tag. The contract names the sequence.
#[verifier::external_body]
fn line_changes(left: &str, right: &str) -> (r: Vec<LineChange>)
    ensures
        r@ == text_line_changes(left@, right@),
{
    similar::TextDiff::from_lines(left, right)
        .iter_all_changes()
        .map(|c| match c.tag() {
            similar::ChangeTag::Equal => LineChange::Equal,
            similar::ChangeTag::Delete => LineChange::Delete,
            similar::ChangeTag::Insert => LineChange::Insert,
        })
        .collect()
}

/// A whole line to highlight.
#[derive(Debug, Clone, Copy, PartialEq, Eq, Structural)]
pub struct LineMark {
    pub side: Side,
    /// Line number, from 0.
    pub line: usize,
    pub mark: Mark,
}

/// The line marks of a sequence of changes, given the lines already passed
/// on each side: a deleted line is marked removed on the left, an inserted
/// line added on the right; equal lines advance both sides.
pub open spec fn marks_of_changes(changes: Seq<LineChange>, left_line: nat, right_line: nat) -> Seq<LineMark>
    decreases changes.len(),
{
    if changes.len() == 0 {
        Seq::empty()
    } else {
        match changes[0] {
            LineChange::Equal => marks_of_changes(changes.drop_first(), left_line + 1, right_line + 1),
            LineChange::Delete => seq![LineMark { side: Side::Left, line: left_line as usize, mark: Mark::Removed }]
                + marks_of_changes(changes.drop_first(), left_line + 1, right_line),
            LineChange::Insert => seq![LineMark { side: Side::Right, line: right_line as usize, mark: Mark::Added }]
                + marks_of_changes(changes.drop_first(), left_line, right_line + 1),
        }
    }
}

/// The number of left-hand lines the changes pass over: equal and deleted
/// lines.
pub open spec fn left_lines(changes: Seq<LineChange>) -> nat
    decreases changes.len(),
{
    if changes.len() == 0 {
        0
    } else {
        left_lines(changes.drop_last()) + if changes.last() is Insert { 0nat } else { 1nat }
    }
}

/// The number of right-hand lines the changes pass over: equal and
/// inserted lines.
pub open spec fn right_lines(changes: Seq<LineChange>) -> nat
    decreases changes.len(),
{
    if changes.len() == 0 {
        0
    } else {
        right_lines(changes.drop_last()) + if changes.last() is Delete { 0nat } else { 1nat }
    }
}

/// The mark, if any, of change `i`: a deleted line is marked removed on
/// the left at its line of the left text, the number of left lines before
/// it; an inserted line is marked added on the right at its line of the
/// right text.
pub open spec fn mark_at(changes: Seq<LineChange>, i: int) -> Seq<LineMark> {
    match changes[i] {
        LineChange::Equal => Seq::empty(),
        LineChange::Delete => seq![
            LineMark { side: Side::Left, line: left_lines(changes.take(i)) as usize, mark: Mark::Removed },
        ],
        LineChange::Insert => seq![
            LineMark { side: Side::Right, line: right_lines(changes.take(i)) as usize, mark: Mark::Added },
        ],
    }
}

/// The marks of the first `n` changes, each at its own line.
pub open spec fn marks_upto(changes: Seq<LineChange>, n: int) -> Seq<LineMark>
    decreases n,
{
    if n <= 0 {
        Seq::empty()
    } else {
        marks_upto(changes, n - 1) + mark_at(changes, n - 1)
    }
}

proof fn lemma_marks_split(changes: Seq<LineChange>, n: int)
    requires
        0 <= n <= changes.len(),
    ensures
        marks_of_changes(changes, 0, 0) == marks_upto(changes, n) + marks_of_changes(
            changes.skip(n),
            left_lines(changes.take(n)),
            right_lines(changes.take(n)),
        ),
    decreases n,
{
    if n == 0 {
        assert(changes.skip(0) =~= changes);
        assert(changes.take(0) =~= Seq::<LineChange>::empty());
        assert(marks_upto(changes, 0) + marks_of_changes(changes, 0, 0) =~= marks_of_changes(changes, 0, 0));
    } else {
        lemma_marks_split(changes, n - 1);
        let rest = changes.skip(n - 1);
        assert(rest.drop_first() =~= changes.skip(n));
        assert(rest[0] == changes[n - 1]);
        assert(changes.take(n).drop_last() =~= changes.take(n - 1));
        assert(changes.take(n).last() == changes[n - 1]);
        let l = left_lines(changes.take(n - 1));
        let r = right_lines(changes.take(n - 1));
        assert(marks_upto(changes, n - 1) + marks_of_changes(rest, l, r) =~= marks_upto(changes, n)
            + marks_of_changes(changes.skip(n), left_lines(changes.take(n)), right_lines(changes.take(n))));
    }
}

/// Each change is marked at its own line: the marks of a line diff are, in
/// the order of the changes, one per deleted line, on the left at the
/// number of left lines (equal or deleted) before it, and one per inserted
/// line, on the right at the number of right lines (equal or inserted)
/// before it. So the left marks name distinct lines of the left text, in
/// increasing order, and likewise on the right.
pub proof fn lemma_marks_at_their_lines(changes: Seq<LineChange>)
    ensures
        marks_of_changes(changes, 0, 0) == marks_upto(changes, changes.len() as int),
{
    lemma_marks_split(changes, changes.len() as int);
    assert(changes.skip(changes.len() as int) =~= Seq::<LineChange>::empty());
    assert(marks_upto(changes, changes.len() as int) + Seq::<LineMark>::empty() =~= marks_upto(
        changes,
        changes.len() as int,
    ));
}

proof fn lemma_lines_bound(cs: Seq<LineChange>)
    ensures
        left_lines(cs) <= cs.len(),
        right_lines(cs) <= cs.len(),
    decreases cs.len(),
{
    if cs.len() > 0 {
        lemma_lines_bound(cs.drop_last());
    }
}

proof fn lemma_marks_upto_ordered(changes: Seq<LineChange>, n: int)
    requires
        0 <= n <= changes.len(),
        changes.len() < usize::MAX,
    ensures
        forall|k: int|
            0 <= k < marks_upto(changes, n).len() ==> {
                let m = #[trigger] marks_upto(changes, n)[k];
                &&& m.side == Side::Left ==> m.line < left_lines(changes.take(n))
                &&& m.side == Side::Right ==> m.line < right_lines(changes.take(n))
            },
        forall|k1: int, k2: int|
            0 <= k1 < k2 < marks_upto(changes, n).len() && #[trigger] marks_upto(changes, n)[k1].side
                == #[trigger] marks_upto(changes, n)[k2].side ==> marks_upto(changes, n)[k1].line < marks_upto(
                changes,
                n,
            )[k2].line,
    decreases n,
{
    if n > 0 {
        lemma_marks_upto_ordered(changes, n - 1);
        let prev = marks_upto(changes, n - 1);
        let add = mark_at(changes, n - 1);
        let all = marks_upto(changes, n);
        assert(all == prev + add);
        assert(changes.take(n).drop_last() =~= changes.take(n - 1));
        assert(changes.take(n).last() == changes[n - 1]);
        lemma_lines_bound(changes.take(n - 1));
        lemma_lines_bound(changes.take(n));
        assert forall|k: int| 0 <= k < all.len() implies {
            let m = #[trigger] all[k];
            &&& m.side == Side::Left ==> m.line < left_lines(changes.take(n))
            &&& m.side == Side::Right ==> m.line < right_lines(changes.take(n))
        } by {
            if k < prev.len() {
                assert(all[k] == prev[k]);
            } else {
                assert(all[k] == add[k - prev.len()]);
            }
        }
        assert forall|k1: int, k2: int|
            0 <= k1 < k2 < all.len() && #[trigger] all[k1].side == #[trigger] all[k2].side implies all[k1].line
                < all[k2].line by {
            if k2 < prev.len() {
                assert(all[k1] == prev[k1]);
                assert(all[k2] == prev[k2]);
            } else {
                assert(all[k2] == add[k2 - prev.len()]);
                assert(all[k1] == prev[k1]);
            }
        }
    }
}

/// On each side the marks of a line diff name distinct lines, in
/// increasing order: no line is marked twice and none is skipped over out
/// of order.
pub proof fn lemma_marks_increase(changes: Seq<LineChange>)
    requires
        changes.len() < usize::MAX,
    ensures
        forall|k1: int, k2: int|
            0 <= k1 < k2 < marks_of_changes(changes, 0, 0).len() && #[trigger] marks_of_changes(changes, 0, 0)[k1].side
                == #[trigger] marks_of_changes(changes, 0, 0)[k2].side ==> marks_of_changes(changes, 0, 0)[k1].line
                < marks_of_changes(changes, 0, 0)[k2].line,
{
    lemma_marks_at_their_lines(changes);
    lemma_marks_upto_ordered(changes, changes.len() as int);
}

/// The lines to mark for a sequence of line changes.
pub fn line_marks(changes: &Vec<LineChange>) -> (marks: Vec<LineMark>)
    ensures
        marks@ == marks_of_changes(changes@, 0, 0),
{
    let mut marks: Vec<LineMark> = Vec::new();
    let mut left_line: usize = 0;
    let mut right_line: usize = 0;
    let mut i: usize = 0;
    assert(changes@.skip(0) =~= changes@);
    while i < changes.len()
        invariant
            i <= changes.len(),
            left_line <= i,
            right_line <= i,
            marks@ + marks_of_changes(changes@.skip(i as int), left_line as nat, right_line as nat)
                == marks_of_changes(changes@, 0, 0),
        decreases changes.len() - i,
    {
        let ghost rest = changes@.skip(i as int);
        assert(rest.drop_first() =~= changes@.skip(i + 1));
        match changes[i] {
            LineChange::Equal => {
                left_line = left_line + 1;
                right_line = right_line + 1;
            },
            LineChange::Delete => {
                let ghost before = marks@;
                marks.push(LineMark { side: Side::Left, line: left_line, mark: Mark::Removed });
                assert(before + marks_of_changes(rest, left_line as nat, right_line as nat) =~= marks@
                    + marks_of_changes(changes@.skip(i + 1), left_line as nat + 1, right_line as nat));
                left_line = left_line + 1;
            },
            LineChange::Insert => {
                let ghost before = marks@;
                marks.push(LineMark { side: Side::Right, line: right_line, mark: Mark::Added });
                assert(before + marks_of_changes(rest, left_line as nat, right_line as nat) =~= marks@
                    + marks_of_changes(changes@.skip(i + 1), left_line as nat, right_line as nat + 1));
                right_line = right_line + 1;
            },
        }
        i = i + 1;
    }
    assert(marks@ + Seq::<LineMark>::empty() =~= marks@);
    marks
}

/// The whole lines each editor highlights: a line diff of the two texts.
pub fn line_highlights(left: &str, right: &str) -> (marks: Vec<LineMark>)
    ensures
        marks@ == marks_of_changes(text_line_changes(left@, right@), 0, 0),
{
    let changes = line_changes(left, right);
    line_marks(&changes)
}

} // verus!
