//! Semantic differences between two JSON or two XML documents.
//!
//! The documents are compared by structure, not by lines: JSON objects key
//! by key and arrays index by index, XML nodes by tag, attributes, direct
//! text and child position. Each difference carries the path of the element.

use vstd::prelude::*;
pub use crate::json_diff::diff_json;
pub use crate::xml_diff::diff_xml;
use crate::text::{chars_lt, chars_of, decimal, lemma_seq_lt_irreflexive, lemma_seq_lt_transitive, seq_lt, usize_text};

verus! {

/// Kind of a difference.
#[derive(Debug, Clone, Copy, PartialEq, Eq, Structural)]
pub enum DiffKind {
    /// Present only in the right document.
    Added,
    /// Present only in the left document.
    Removed,
    /// Present in both with different values.
    Changed,
}

/// One difference between two documents.
#[derive(Debug, Clone, PartialEq, Eq)]
pub struct DiffItem {
    /// Path of the element, e.g. `$.persona.direccion` or `lista.item[1]`.
    pub path: String,
    pub kind: DiffKind,
    /// Value in the left document (`None` when added).
    pub left: Option<String>,
    /// Value in the right document (`None` when removed).
    pub right: Option<String>,
}

/// All differences found between two documents.
#[derive(Debug)]
pub struct DiffResult {
    pub added: Vec<DiffItem>,
    pub removed: Vec<DiffItem>,
    pub changed: Vec<DiffItem>,
}

/// The model of a difference.
pub struct DiffItemV {
    pub path: Seq<char>,
    pub kind: DiffKind,
    pub left: Option<Seq<char>>,
    pub right: Option<Seq<char>>,
}

/// The model of a result: the three lists, in the order they were found.
pub struct Diffs {
    pub added: Seq<DiffItemV>,
    pub removed: Seq<DiffItemV>,
    pub changed: Seq<DiffItemV>,
}

pub open spec fn opt_view(o: Option<String>) -> Option<Seq<char>> {
    match o {
        Some(s) => Some(s@),
        None => None,
    }
}

impl DiffItem {
    pub open spec fn view(&self) -> DiffItemV {
        DiffItemV {
            path: self.path@,
            kind: self.kind,
            left: opt_view(self.left),
            right: opt_view(self.right),
        }
    }
}

pub open spec fn items_view(v: Seq<DiffItem>) -> Seq<DiffItemV> {
    Seq::new(v.len(), |i: int| v[i]@)
}

impl DiffResult {
    pub open spec fn view(&self) -> Diffs {
        Diffs {
            added: items_view(self.added@),
            removed: items_view(self.removed@),
            changed: items_view(self.changed@),
        }
    }

    /// The total number of differences fits in a `usize`.
    pub open spec fn counts_fit(&self) -> bool {
        self.added@.len() + self.removed@.len() + self.changed@.len() <= usize::MAX
    }
}

impl Diffs {
    pub open spec fn empty() -> Diffs {
        Diffs { added: Seq::empty(), removed: Seq::empty(), changed: Seq::empty() }
    }

    pub open spec fn concat(self, other: Diffs) -> Diffs {
        Diffs {
            added: self.added + other.added,
            removed: self.removed + other.removed,
            changed: self.changed + other.changed,
        }
    }

    /// A single difference, in the list its kind names.
    pub open spec fn single(item: DiffItemV) -> Diffs {
        match item.kind {
            DiffKind::Added => Diffs { added: seq![item], removed: Seq::empty(), changed: Seq::empty() },
            DiffKind::Removed => Diffs { added: Seq::empty(), removed: seq![item], changed: Seq::empty() },
            DiffKind::Changed => Diffs { added: Seq::empty(), removed: Seq::empty(), changed: seq![item] },
        }
    }

    pub open spec fn total(self) -> nat {
        self.added.len() + self.removed.len() + self.changed.len()
    }
}

/// A difference seen from the other side: an addition becomes a removal
/// and back, and the two values change places.
pub open spec fn flip_item(it: DiffItemV) -> DiffItemV {
    DiffItemV {
        path: it.path,
        kind: match it.kind {
            DiffKind::Added => DiffKind::Removed,
            DiffKind::Removed => DiffKind::Added,
            DiffKind::Changed => DiffKind::Changed,
        },
        left: it.right,
        right: it.left,
    }
}

pub open spec fn flip_items(s: Seq<DiffItemV>) -> Seq<DiffItemV> {
    Seq::new(s.len(), |i: int| flip_item(s[i]))
}

/// The differences seen from the other side: the removals, flipped, are the
/// additions; the additions, flipped, the removals; each change flipped.
pub open spec fn flipped(d: Diffs) -> Diffs {
    Diffs { added: flip_items(d.removed), removed: flip_items(d.added), changed: flip_items(d.changed) }
}

pub proof fn lemma_flipped_concat(a: Diffs, b: Diffs)
    ensures
        flipped(a.concat(b)) == flipped(a).concat(flipped(b)),
{
    assert(flipped(a.concat(b)).added =~= flipped(a).concat(flipped(b)).added);
    assert(flipped(a.concat(b)).removed =~= flipped(a).concat(flipped(b)).removed);
    assert(flipped(a.concat(b)).changed =~= flipped(a).concat(flipped(b)).changed);
}

pub proof fn lemma_flipped_single(it: DiffItemV)
    ensures
        flipped(Diffs::single(it)) == Diffs::single(flip_item(it)),
        flipped(Diffs::empty()) == Diffs::empty(),
{
    assert(flipped(Diffs::single(it)).added =~= Diffs::single(flip_item(it)).added);
    assert(flipped(Diffs::single(it)).removed =~= Diffs::single(flip_item(it)).removed);
    assert(flipped(Diffs::single(it)).changed =~= Diffs::single(flip_item(it)).changed);
    assert(flipped(Diffs::empty()).added =~= Diffs::empty().added);
    assert(flipped(Diffs::empty()).removed =~= Diffs::empty().removed);
    assert(flipped(Diffs::empty()).changed =~= Diffs::empty().changed);
}

/// Every difference sits in the list its kind names, and its path extends
/// `prefix`.
pub open spec fn well_placed(d: Diffs, prefix: Seq<char>) -> bool {
    &&& forall|i: int| 0 <= i < d.added.len() ==> (#[trigger] d.added[i]).kind == DiffKind::Added
        && prefix.is_prefix_of(d.added[i].path)
    &&& forall|i: int| 0 <= i < d.removed.len() ==> (#[trigger] d.removed[i]).kind == DiffKind::Removed
        && prefix.is_prefix_of(d.removed[i].path)
    &&& forall|i: int| 0 <= i < d.changed.len() ==> (#[trigger] d.changed[i]).kind == DiffKind::Changed
        && prefix.is_prefix_of(d.changed[i].path)
}

pub proof fn lemma_placed_single(item: DiffItemV, prefix: Seq<char>)
    requires
        prefix.is_prefix_of(item.path),
    ensures
        well_placed(Diffs::single(item), prefix),
{
}

pub proof fn lemma_placed_concat(a: Diffs, b: Diffs, prefix: Seq<char>)
    requires
        well_placed(a, prefix),
        well_placed(b, prefix),
    ensures
        well_placed(a.concat(b), prefix),
{
    let c = a.concat(b);
    assert forall|i: int| 0 <= i < c.added.len() implies (#[trigger] c.added[i]).kind == DiffKind::Added
        && prefix.is_prefix_of(c.added[i].path) by {
        if i >= a.added.len() {
            assert(c.added[i] == b.added[i - a.added.len()]);
        }
    }
    assert forall|i: int| 0 <= i < c.removed.len() implies (#[trigger] c.removed[i]).kind == DiffKind::Removed
        && prefix.is_prefix_of(c.removed[i].path) by {
        if i >= a.removed.len() {
            assert(c.removed[i] == b.removed[i - a.removed.len()]);
        }
    }
    assert forall|i: int| 0 <= i < c.changed.len() implies (#[trigger] c.changed[i]).kind == DiffKind::Changed
        && prefix.is_prefix_of(c.changed[i].path) by {
        if i >= a.changed.len() {
            assert(c.changed[i] == b.changed[i - a.changed.len()]);
        }
    }
}

/// A placement under a longer prefix is also one under a shorter prefix.
pub proof fn lemma_placed_widen(d: Diffs, short: Seq<char>, long: Seq<char>)
    requires
        well_placed(d, long),
        short.is_prefix_of(long),
    ensures
        well_placed(d, short),
{
    assert forall|i: int| 0 <= i < d.added.len() implies short.is_prefix_of(#[trigger] d.added[i].path) by {
        assert(d.added[i].path.subrange(0, short.len() as int) =~= long.subrange(0, short.len() as int));
    }
    assert forall|i: int| 0 <= i < d.removed.len() implies short.is_prefix_of(#[trigger] d.removed[i].path) by {
        assert(d.removed[i].path.subrange(0, short.len() as int) =~= long.subrange(0, short.len() as int));
    }
    assert forall|i: int| 0 <= i < d.changed.len() implies short.is_prefix_of(#[trigger] d.changed[i].path) by {
        assert(d.changed[i].path.subrange(0, short.len() as int) =~= long.subrange(0, short.len() as int));
    }
}

pub proof fn lemma_concat_assoc(a: Diffs, b: Diffs, c: Diffs)
    ensures
        a.concat(b).concat(c) == a.concat(b.concat(c)),
{
    assert(a.concat(b).concat(c).added =~= a.concat(b.concat(c)).added);
    assert(a.concat(b).concat(c).removed =~= a.concat(b.concat(c)).removed);
    assert(a.concat(b).concat(c).changed =~= a.concat(b.concat(c)).changed);
}

pub proof fn lemma_concat_empty(a: Diffs)
    ensures
        a.concat(Diffs::empty()) == a,
{
    assert(a.concat(Diffs::empty()).added =~= a.added);
    assert(a.concat(Diffs::empty()).removed =~= a.removed);
    assert(a.concat(Diffs::empty()).changed =~= a.changed);
}

impl DiffResult {
    /// A result with no differences.
    pub fn new() -> (r: DiffResult)
        ensures
            r@ == Diffs::empty(),
    {
        let r = DiffResult { added: Vec::new(), removed: Vec::new(), changed: Vec::new() };
        assert(r@.added =~= Seq::<DiffItemV>::empty());
        assert(r@.removed =~= Seq::<DiffItemV>::empty());
        assert(r@.changed =~= Seq::<DiffItemV>::empty());
        r
    }

    /// Records one difference in the list its kind names.
    pub fn record(&mut self, item: DiffItem)
        ensures
            final(self)@ == old(self)@.concat(Diffs::single(item@)),
    {
        let ghost before = self@;
        match item.kind {
            DiffKind::Added => self.added.push(item),
            DiffKind::Removed => self.removed.push(item),
            DiffKind::Changed => self.changed.push(item),
        }
        assert(self@.added =~= before.concat(Diffs::single(item@)).added);
        assert(self@.removed =~= before.concat(Diffs::single(item@)).removed);
        assert(self@.changed =~= before.concat(Diffs::single(item@)).changed);
    }

    /// Whether the total number of differences fits in a `usize` (what
    /// `total`, `is_empty` and `summary` require).
    pub fn counts_fit_usize(&self) -> (b: bool)
        ensures
            b == self.counts_fit(),
    {
        let a = self.added.len();
        let r = self.removed.len();
        let c = self.changed.len();
        a <= usize::MAX - r && a + r <= usize::MAX - c
    }

    /// Total number of differences.
    pub fn total(&self) -> (n: usize)
        requires
            self.counts_fit(),
        ensures
            n == self@.total(),
    {
        self.added.len() + self.removed.len() + self.changed.len()
    }

    /// Whether no difference was found.
    pub fn is_empty(&self) -> (b: bool)
        requires
            self.counts_fit(),
        ensures
            b == (self@.total() == 0),
    {
        self.total() == 0
    }

    /// A one-line summary of the result, for the status bar.
    pub fn summary(&self) -> (s: String)
        requires
            self.counts_fit(),
        ensures
            s@ == summary_text(self@),
    {
        if self.is_empty() {
            let s = String::from_str("Los documentos son idénticos");
            s
        } else {
            let mut s = usize_text(self.total());
            s.append(" diferencia(s): ");
            s.append(usize_text(self.added.len()).as_str());
            s.append(" añadida(s), ");
            s.append(usize_text(self.removed.len()).as_str());
            s.append(" eliminada(s), ");
            s.append(usize_text(self.changed.len()).as_str());
            s.append(" modificada(s)");
            s
        }
    }
}

/// The summary line of a result.
pub open spec fn summary_text(d: Diffs) -> Seq<char> {
    if d.total() == 0 {
        "Los documentos son idénticos"@
    } else {
        decimal(d.total()) + " diferencia(s): "@ + decimal(d.added.len()) + " añadida(s), "@
            + decimal(d.removed.len()) + " eliminada(s), "@ + decimal(d.changed.len())
            + " modificada(s)"@
    }
}

/// The label of a kind.
pub open spec fn kind_label(k: DiffKind) -> Seq<char> {
    match k {
        DiffKind::Added => "ADDED"@,
        DiffKind::Removed => "REMOVED"@,
        DiffKind::Changed => "CHANGED"@,
    }
}

impl DiffKind {
    /// "ADDED", "REMOVED" or "CHANGED".
    pub fn label(&self) -> (s: String)
        ensures
            s@ == kind_label(*self),
    {
        match self {
            DiffKind::Added => String::from_str("ADDED"),
            DiffKind::Removed => String::from_str("REMOVED"),
            DiffKind::Changed => String::from_str("CHANGED"),
        }
    }
}

pub open spec fn or_empty(o: Option<Seq<char>>) -> Seq<char> {
    match o {
        Some(s) => s,
        None => Seq::empty(),
    }
}

/// One line describing a difference: `[+] path = right`, `[-] path = left`
/// or `[~] path : left → right`.
pub open spec fn item_line(d: DiffItemV) -> Seq<char> {
    match d.kind {
        DiffKind::Added => "[+] "@ + d.path + " = "@ + or_empty(d.right),
        DiffKind::Removed => "[-] "@ + d.path + " = "@ + or_empty(d.left),
        DiffKind::Changed => "[~] "@ + d.path + " : "@ + or_empty(d.left) + " → "@ + or_empty(d.right),
    }
}

fn push_opt(out: &mut String, o: &Option<String>)
    ensures
        final(out)@ == old(out)@ + or_empty(opt_view(*o)),
{
    match o {
        Some(s) => out.append(s.as_str()),
        None => {
            assert(old(out)@ + or_empty(opt_view(*o)) =~= old(out)@);
        },
    }
}

impl DiffItem {
    /// The one-line description of this difference.
    pub fn line(&self) -> (s: String)
        ensures
            s@ == item_line(self@),
    {
        match self.kind {
            DiffKind::Added => {
                let mut s = String::from_str("[+] ");
                s.append(self.path.as_str());
                s.append(" = ");
                push_opt(&mut s, &self.right);
                s
            },
            DiffKind::Removed => {
                let mut s = String::from_str("[-] ");
                s.append(self.path.as_str());
                s.append(" = ");
                push_opt(&mut s, &self.left);
                s
            },
            DiffKind::Changed => {
                let mut s = String::from_str("[~] ");
                s.append(self.path.as_str());
                s.append(" : ");
                push_opt(&mut s, &self.left);
                s.append(" → ");
                push_opt(&mut s, &self.right);
                s
            },
        }
    }
}

/// Inserts an item after every item whose path is not greater than its own.
pub open spec fn insert_by_path(s: Seq<DiffItemV>, x: DiffItemV) -> Seq<DiffItemV>
    decreases s.len(),
{
    if s.len() == 0 {
        seq![x]
    } else if seq_lt(x.path, s[0].path) {
        seq![x] + s
    } else {
        seq![s[0]] + insert_by_path(s.drop_first(), x)
    }
}

/// The items ordered by path; items with equal paths keep their order.
pub open spec fn sort_by_path(s: Seq<DiffItemV>) -> Seq<DiffItemV>
    decreases s.len(),
{
    if s.len() == 0 {
        Seq::empty()
    } else {
        insert_by_path(sort_by_path(s.drop_last()), s.last())
    }
}

/// Every item's path is not smaller than the path of any item before it.
pub open spec fn path_sorted(s: Seq<DiffItemV>) -> bool {
    forall|i: int, j: int| 0 <= i < j < s.len() ==> !seq_lt(#[trigger] s[j].path, #[trigger] s[i].path)
}

/// Where `insert_by_path` puts the new item.
pub open spec fn insert_pos(s: Seq<DiffItemV>, x: DiffItemV) -> int
    decreases s.len(),
{
    if s.len() == 0 {
        0
    } else if seq_lt(x.path, s[0].path) {
        0
    } else {
        1 + insert_pos(s.drop_first(), x)
    }
}

proof fn lemma_insert_is_insert(s: Seq<DiffItemV>, x: DiffItemV)
    ensures
        0 <= insert_pos(s, x) <= s.len(),
        insert_by_path(s, x) == s.insert(insert_pos(s, x), x),
    decreases s.len(),
{
    if s.len() > 0 && !seq_lt(x.path, s[0].path) {
        lemma_insert_is_insert(s.drop_first(), x);
        assert(insert_by_path(s, x) =~= s.insert(insert_pos(s, x), x));
    } else {
        assert(insert_by_path(s, x) =~= s.insert(insert_pos(s, x), x));
    }
}

proof fn lemma_insert_lower_bound(s: Seq<DiffItemV>, x: DiffItemV, b: Seq<char>)
    requires
        forall|j: int| 0 <= j < s.len() ==> !seq_lt(#[trigger] s[j].path, b),
        !seq_lt(x.path, b),
    ensures
        forall|k: int| 0 <= k < insert_by_path(s, x).len() ==> !seq_lt(#[trigger] insert_by_path(s, x)[k].path, b),
    decreases s.len(),
{
    lemma_insert_is_insert(s, x);
    if s.len() > 0 && !seq_lt(x.path, s[0].path) {
        lemma_insert_lower_bound(s.drop_first(), x, b);
        lemma_insert_is_insert(s.drop_first(), x);
        let t = insert_by_path(s.drop_first(), x);
        assert forall|k: int| 0 <= k < insert_by_path(s, x).len() implies !seq_lt(#[trigger] insert_by_path(s, x)[k].path, b) by {
            if k > 0 {
                assert(insert_by_path(s, x)[k] == t[k - 1]);
            }
        }
    }
}

proof fn lemma_insert_sorted(s: Seq<DiffItemV>, x: DiffItemV)
    requires
        path_sorted(s),
    ensures
        path_sorted(insert_by_path(s, x)),
    decreases s.len(),
{
    lemma_insert_is_insert(s, x);
    if s.len() == 0 {
    } else if seq_lt(x.path, s[0].path) {
        let r = insert_by_path(s, x);
        assert(r =~= seq![x] + s);
        assert forall|i: int, j: int| 0 <= i < j < r.len() implies !seq_lt(#[trigger] r[j].path, #[trigger] r[i].path) by {
            if i == 0 {
                if seq_lt(r[j].path, x.path) {
                    if j - 1 == 0 {
                        lemma_seq_lt_transitive(s[0].path, x.path, s[0].path);
                        lemma_seq_lt_irreflexive(s[0].path);
                    } else {
                        assert(!seq_lt(s[j - 1].path, s[0].path));
                        lemma_seq_lt_transitive(s[j - 1].path, x.path, s[0].path);
                    }
                }
            }
        }
    } else {
        let rest = s.drop_first();
        lemma_insert_sorted(rest, x);
        assert forall|j: int| 0 <= j < rest.len() implies !seq_lt(#[trigger] rest[j].path, s[0].path) by {
            assert(s[j + 1] == rest[j]);
        }
        lemma_insert_lower_bound(rest, x, s[0].path);
        let t = insert_by_path(rest, x);
        let r = insert_by_path(s, x);
        assert(r =~= seq![s[0]] + t);
        assert forall|i: int, j: int| 0 <= i < j < r.len() implies !seq_lt(#[trigger] r[j].path, #[trigger] r[i].path) by {
            assert(r[j] == t[j - 1]);
            if i > 0 {
                assert(r[i] == t[i - 1]);
            }
        }
    }
}

/// The law behind `DiffResult::all_items`: sorting by path yields a list
/// ordered by path that holds exactly the items it was given.
pub proof fn lemma_sort_by_path(s: Seq<DiffItemV>)
    ensures
        path_sorted(sort_by_path(s)),
        sort_by_path(s).to_multiset() == s.to_multiset(),
    decreases s.len(),
{
    broadcast use vstd::seq_lib::group_to_multiset_ensures;

    if s.len() > 0 {
        let init = s.drop_last();
        lemma_sort_by_path(init);
        lemma_insert_sorted(sort_by_path(init), s.last());
        lemma_insert_is_insert(sort_by_path(init), s.last());
        assert(init.push(s.last()) =~= s);
    } else {
        assert(sort_by_path(s).to_multiset() =~= s.to_multiset());
    }
}

pub open spec fn refs_view(v: Seq<&DiffItem>) -> Seq<DiffItemV> {
    Seq::new(v.len(), |i: int| v[i]@)
}

fn insert_ref_by_path<'a>(v: &mut Vec<&'a DiffItem>, x: &'a DiffItem)
    ensures
        refs_view(final(v)@) == insert_by_path(refs_view(old(v)@), x@),
{
    let ghost s = refs_view(v@);
    let xp = chars_of(x.path.as_str());
    let mut p: usize = 0;
    assert(s.skip(0) =~= s);
    assert(s.take(0) + insert_by_path(s.skip(0), x@) =~= insert_by_path(s, x@));
    while p < v.len()
        invariant
            p <= v.len(),
            s == refs_view(v@),
            s == refs_view(old(v)@),
            xp@ == x.path@,
            insert_by_path(s, x@) == s.take(p as int) + insert_by_path(s.skip(p as int), x@),
        decreases v.len() - p,
    {
        let ghost t = s.skip(p as int);
        assert(t[0] == v@[p as int]@);
        let yp = chars_of(v[p].path.as_str());
        if chars_lt(&xp, &yp) {
            assert(insert_by_path(t, x@) == seq![x@] + t);
            v.insert(p, x);
            assert(refs_view(v@) =~= s.take(p as int) + (seq![x@] + t));
            return;
        }
        assert(t.drop_first() =~= s.skip(p + 1));
        assert(s.take(p + 1) =~= s.take(p as int).push(t[0]));
        assert(s.take(p as int) + (seq![t[0]] + insert_by_path(t.drop_first(), x@)) =~= s.take(p + 1)
            + insert_by_path(s.skip(p + 1), x@));
        p = p + 1;
    }
    assert(s.skip(p as int) =~= Seq::<DiffItemV>::empty());
    v.push(x);
    assert(refs_view(v@) =~= s.take(p as int) + seq![x@]);
}

impl DiffResult {
    /// Every difference in one list ordered by path (added, then removed,
    /// then changed, for equal paths).
    pub fn all_items(&self) -> (v: Vec<&DiffItem>)
        ensures
            refs_view(v@) == sort_by_path(self@.added + self@.removed + self@.changed),
    {
        let ghost all = self@.added + self@.removed + self@.changed;
        let mut v: Vec<&DiffItem> = Vec::new();
        assert(all.take(0) =~= Seq::<DiffItemV>::empty());
        assert(refs_view(v@) =~= Seq::<DiffItemV>::empty());
        let mut i: usize = 0;
        while i < self.added.len()
            invariant
                i <= self.added.len(),
                all == self@.added + self@.removed + self@.changed,
                refs_view(v@) == sort_by_path(all.take(i as int)),
            decreases self.added.len() - i,
        {
            assert(all[i as int] == self.added@[i as int]@);
            assert(all.take(i + 1).drop_last() =~= all.take(i as int));
            insert_ref_by_path(&mut v, &self.added[i]);
            i = i + 1;
        }
        let ghost n1 = self.added.len() as int;
        let mut j: usize = 0;
        while j < self.removed.len()
            invariant
                j <= self.removed.len(),
                n1 == self.added.len(),
                all == self@.added + self@.removed + self@.changed,
                refs_view(v@) == sort_by_path(all.take(n1 + j)),
            decreases self.removed.len() - j,
        {
            assert(all[n1 + j] == self.removed@[j as int]@);
            assert(all.take(n1 + j + 1).drop_last() =~= all.take(n1 + j));
            insert_ref_by_path(&mut v, &self.removed[j]);
            j = j + 1;
        }
        let ghost n2 = n1 + self.removed.len();
        let mut k: usize = 0;
        while k < self.changed.len()
            invariant
                k <= self.changed.len(),
                n1 == self.added.len(),
                n2 == n1 + self.removed.len(),
                all == self@.added + self@.removed + self@.changed,
                refs_view(v@) == sort_by_path(all.take(n2 + k)),
            decreases self.changed.len() - k,
        {
            assert(all[n2 + k] == self.changed@[k as int]@);
            assert(all.take(n2 + k + 1).drop_last() =~= all.take(n2 + k));
            insert_ref_by_path(&mut v, &self.changed[k]);
            k = k + 1;
        }
        assert(all.take(n2 + k) =~= all);
        v
    }
}

} // verus!
