//! Semantic diff of JSON values: objects key by key (keys in order), arrays
//! index by index, anything else compared as a whole.

use vstd::prelude::*;
use crate::diff_engine::{
    DiffItem, DiffItemV, DiffKind, DiffResult, Diffs, flip_item, flipped, lemma_concat_assoc, lemma_flipped_concat,
    lemma_flipped_single, lemma_placed_concat, lemma_placed_single, lemma_placed_widen, well_placed,
};
use crate::json::{JsonV, JsonValue, compact_string, compact_text, json_eq, json_same, lemma_json_same_symmetric};
use crate::text::{chars_lt, chars_of, decimal, lemma_seq_lt_asymmetric, lemma_seq_lt_total, seq_lt, usize_text};

verus! {

/// A position compared under a container: the child's path and its index on
/// each side (absent on a side that lacks it).
pub struct Slot {
    pub path: Seq<char>,
    pub left: Option<int>,
    pub right: Option<int>,
}

/// How a value is shown in a difference: strings between plain quotes,
/// anything else as compact JSON text.
pub open spec fn value_display(v: JsonV) -> Seq<char> {
    match v {
        JsonV::Str(s) => seq!['"'] + s + seq!['"'],
        _ => compact_text(v),
    }
}

/// The path of an object member.
pub open spec fn key_path(path: Seq<char>, key: Seq<char>) -> Seq<char> {
    path + seq!['.'] + key
}

/// The path of an array element.
pub open spec fn index_path(path: Seq<char>, i: int) -> Seq<char> {
    path + seq!['['] + decimal(i as nat) + seq![']']
}

/// The slots of two objects: their keys merged in key order, a key present
/// on both sides giving one slot with both indices.
pub open spec fn object_slots(
    l: Seq<(Seq<char>, JsonV)>,
    r: Seq<(Seq<char>, JsonV)>,
    i: int,
    j: int,
    path: Seq<char>,
) -> Seq<Slot>
    decreases l.len() - i + r.len() - j,
{
    if i < 0 || j < 0 || i > l.len() || j > r.len() || (i >= l.len() && j >= r.len()) {
        Seq::empty()
    } else if i >= l.len() {
        seq![Slot { path: key_path(path, r[j].0), left: None, right: Some(j) }] + object_slots(
            l,
            r,
            i,
            j + 1,
            path,
        )
    } else if j >= r.len() {
        seq![Slot { path: key_path(path, l[i].0), left: Some(i), right: None }] + object_slots(
            l,
            r,
            i + 1,
            j,
            path,
        )
    } else if l[i].0 == r[j].0 {
        seq![Slot { path: key_path(path, l[i].0), left: Some(i), right: Some(j) }] + object_slots(
            l,
            r,
            i + 1,
            j + 1,
            path,
        )
    } else if seq_lt(l[i].0, r[j].0) {
        seq![Slot { path: key_path(path, l[i].0), left: Some(i), right: None }] + object_slots(
            l,
            r,
            i + 1,
            j,
            path,
        )
    } else {
        seq![Slot { path: key_path(path, r[j].0), left: None, right: Some(j) }] + object_slots(
            l,
            r,
            i,
            j + 1,
            path,
        )
    }
}

/// The slots of two arrays: every index below the longer length.
pub open spec fn array_slots(nl: int, nr: int, path: Seq<char>) -> Seq<Slot> {
    let n = if nl >= nr { nl } else { nr };
    Seq::new(
        n as nat,
        |i: int|
            Slot {
                path: index_path(path, i),
                left: if i < nl { Some(i) } else { None },
                right: if i < nr { Some(i) } else { None },
            },
    )
}

/// The `i`-th child of a container.
pub open spec fn child_of(v: JsonV, i: int) -> JsonV {
    match v {
        JsonV::Array(items) => items[i],
        JsonV::Object(members) => members[i].1,
        _ => JsonV::Null,
    }
}

pub open spec fn removed_item(path: Seq<char>, v: JsonV) -> DiffItemV {
    DiffItemV { path, kind: DiffKind::Removed, left: Some(value_display(v)), right: None }
}

pub open spec fn added_item(path: Seq<char>, v: JsonV) -> DiffItemV {
    DiffItemV { path, kind: DiffKind::Added, left: None, right: Some(value_display(v)) }
}

pub open spec fn changed_item(path: Seq<char>, l: JsonV, r: JsonV) -> DiffItemV {
    DiffItemV {
        path,
        kind: DiffKind::Changed,
        left: Some(value_display(l)),
        right: Some(value_display(r)),
    }
}

/// The differences between two JSON values found under `path`.
///
/// Values that serde_json counts as equal give none. Two objects are compared key by key over their
/// merged keys, two arrays index by index; a slot present on one side only is
/// a removal or an addition of the whole value. Any other pair of values is a
/// single change at `path`.
pub open spec fn json_diff(l: JsonV, r: JsonV, path: Seq<char>) -> Diffs
    decreases l, 2int, 0int,
{
    if json_same(l, r) {
        Diffs::empty()
    } else {
        match (l, r) {
            (JsonV::Object(lo), JsonV::Object(ro)) => slots_diff(l, r, object_slots(lo, ro, 0, 0, path)),
            (JsonV::Array(la), JsonV::Array(ra)) => slots_diff(
                l,
                r,
                array_slots(la.len() as int, ra.len() as int, path),
            ),
            _ => Diffs::single(changed_item(path, l, r)),
        }
    }
}

/// The differences of a sequence of slots, concatenated in order.
pub open spec fn slots_diff(l: JsonV, r: JsonV, slots: Seq<Slot>) -> Diffs
    decreases l, 1int, slots.len(),
{
    if slots.len() == 0 {
        Diffs::empty()
    } else {
        slots_diff(l, r, slots.drop_last()).concat(slot_diff(l, r, slots.last()))
    }
}

/// The differences of one slot.
pub open spec fn slot_diff(l: JsonV, r: JsonV, s: Slot) -> Diffs
    decreases l, 0int, 0int,
{
    match (s.left, s.right) {
        (Some(i), Some(j)) => match l {
            JsonV::Array(la) => if 0 <= i < la.len() {
                json_diff(la[i], child_of(r, j), s.path)
            } else {
                Diffs::empty()
            },
            JsonV::Object(lo) => if 0 <= i < lo.len() {
                json_diff(lo[i].1, child_of(r, j), s.path)
            } else {
                Diffs::empty()
            },
            _ => Diffs::empty(),
        },
        (Some(i), None) => Diffs::single(removed_item(s.path, child_of(l, i))),
        (None, Some(j)) => Diffs::single(added_item(s.path, child_of(r, j))),
        (None, None) => Diffs::empty(),
    }
}

/// How a value is shown in a difference.
pub fn value_to_compact_string(v: &JsonValue) -> (s: String)
    ensures
        s@ == value_display(v@),
{
    match v {
        JsonValue::Str(t) => {
            let mut s = String::new();
            s.push('"');
            s.append(t.as_str());
            s.push('"');
            assert(s@ =~= value_display(v@));
            s
        },
        _ => compact_string(v),
    }
}

fn child_path_key(path: &String, key: &String) -> (s: String)
    ensures
        s@ == key_path(path@, key@),
{
    let mut s = path.clone();
    s.push('.');
    s.append(key.as_str());
    s
}

fn child_path_index(path: &String, i: usize) -> (s: String)
    ensures
        s@ == index_path(path@, i as int),
{
    let mut s = path.clone();
    s.push('[');
    s.append(usize_text(i).as_str());
    s.push(']');
    assert(s@ =~= index_path(path@, i as int));
    s
}

proof fn lemma_slots_push(l: JsonV, r: JsonV, done: Seq<Slot>, s: Slot)
    ensures
        slots_diff(l, r, done.push(s)) == slots_diff(l, r, done).concat(slot_diff(l, r, s)),
{
    assert(done.push(s).drop_last() =~= done);
}

proof fn lemma_slots_total_append(l: JsonV, r: JsonV, a: Seq<Slot>, b: Seq<Slot>)
    ensures
        slots_diff(l, r, a + b).total() == slots_diff(l, r, a).total() + slots_diff(l, r, b).total(),
    decreases b.len(),
{
    if b.len() == 0 {
        assert(a + b =~= a);
    } else {
        assert((a + b).drop_last() =~= a + b.drop_last());
        lemma_slots_total_append(l, r, a, b.drop_last());
    }
}

proof fn lemma_single_slot(l: JsonV, r: JsonV, s: Slot)
    ensures
        slots_diff(l, r, seq![s]).total() == slot_diff(l, r, s).total(),
{
    assert(seq![s].drop_last() =~= Seq::<Slot>::empty());
    assert(seq![s].last() == s);
    assert(slots_diff(l, r, Seq::<Slot>::empty()) == Diffs::empty());
    assert(slots_diff(l, r, seq![s]) == slots_diff(l, r, Seq::<Slot>::empty()).concat(slot_diff(l, r, s)));
}

/// A walk over two objects' members from positions `i` and `j` that finds no
/// difference has gone through as many members on each side, with equal
/// keys and the same values.
proof fn lemma_object_walk_quiet(
    l: JsonV,
    r: JsonV,
    i: int,
    j: int,
    path: Seq<char>,
)
    requires
        l is Object,
        r is Object,
        0 <= i <= l->Object_0.len(),
        0 <= j <= r->Object_0.len(),
        slots_diff(l, r, object_slots(l->Object_0, r->Object_0, i, j, path)).total() == 0,
    ensures
        l->Object_0.len() - i == r->Object_0.len() - j,
        forall|t: int|
            0 <= t < l->Object_0.len() - i ==> (#[trigger] l->Object_0[i + t]).0 == r->Object_0[j + t].0 && json_same(
                l->Object_0[i + t].1,
                r->Object_0[j + t].1,
            ),
    decreases l, 1int, l->Object_0.len() - i + r->Object_0.len() - j,
{
    match l {
        JsonV::Object(lo) => {
            let ro = r->Object_0;
            let slots = object_slots(lo, ro, i, j, path);
            if i >= lo.len() && j >= ro.len() {
            } else {
                let first = slots[0];
                let rest = slots.drop_first();
                assert(slots =~= seq![first] + rest);
                lemma_slots_total_append(l, r, seq![first], rest);
                lemma_single_slot(l, r, first);
                if i >= lo.len() || j >= ro.len() || lo[i].0 != ro[j].0 {
                    assert(slot_diff(l, r, first).total() == 1);
                } else {
                    assert(rest =~= object_slots(lo, ro, i + 1, j + 1, path));
                    lemma_json_diff_quiet(lo[i].1, ro[j].1, first.path);
                    lemma_object_walk_quiet(l, r, i + 1, j + 1, path);
                    assert forall|t: int| 0 <= t < lo.len() - i implies (#[trigger] lo[i + t]).0 == ro[j + t].0 && json_same(
                        lo[i + t].1,
                        ro[j + t].1,
                    ) by {
                        if t > 0 {
                            assert(lo[(i + 1) + (t - 1)] == lo[i + t]);
                        }
                    }
                }
            }
        },
        _ => {},
    }
}

/// A comparison that finds no difference was made between values that
/// serde_json counts as equal.
proof fn lemma_json_diff_quiet(l: JsonV, r: JsonV, path: Seq<char>)
    requires
        json_diff(l, r, path).total() == 0,
    ensures
        json_same(l, r),
    decreases l, 2int, 0int,
{
    if !json_same(l, r) {
        match (l, r) {
            (JsonV::Object(lo), JsonV::Object(ro)) => {
                lemma_object_walk_quiet(l, r, 0, 0, path);
                assert forall|t: int| 0 <= t < lo.len() implies (#[trigger] lo[t]).0 == ro[t].0 && json_same(lo[t].1, ro[t].1) by {
                    assert(lo[0 + t] == lo[t]);
                }
            },
            (JsonV::Array(la), JsonV::Array(ra)) => {
                let slots = array_slots(la.len() as int, ra.len() as int, path);
                let k: int = if la.len() != ra.len() {
                    if la.len() < ra.len() { la.len() as int } else { ra.len() as int }
                } else {
                    choose|k: int| 0 <= k < la.len() && !json_same(la[k], ra[k])
                };
                assert(slots =~= slots.take(k) + (seq![slots[k]] + slots.skip(k + 1)));
                lemma_slots_total_append(l, r, slots.take(k), seq![slots[k]] + slots.skip(k + 1));
                lemma_slots_total_append(l, r, seq![slots[k]], slots.skip(k + 1));
                lemma_single_slot(l, r, slots[k]);
                if la.len() == ra.len() {
                    lemma_json_diff_quiet(la[k], ra[k], slots[k].path);
                }
            },
            _ => {},
        }
    }
}

/// Two JSON values have no difference exactly when serde_json counts them
/// as equal (which identical values are): the diff of a document with
/// itself is empty, and an empty diff means the documents are equal.
pub proof fn lemma_json_diff_empty_iff_equal(l: JsonV, r: JsonV, path: Seq<char>)
    ensures
        (json_diff(l, r, path).total() == 0) == json_same(l, r),
        l == r ==> json_diff(l, r, path).total() == 0,
{
    crate::json::lemma_json_same_reflexive(l);
    if json_diff(l, r, path).total() == 0 {
        lemma_json_diff_quiet(l, r, path);
    }
}

proof fn lemma_object_slot_paths(
    l: Seq<(Seq<char>, JsonV)>,
    r: Seq<(Seq<char>, JsonV)>,
    i: int,
    j: int,
    path: Seq<char>,
)
    ensures
        forall|k: int| 0 <= k < object_slots(l, r, i, j, path).len() ==> path.is_prefix_of(
            #[trigger] object_slots(l, r, i, j, path)[k].path,
        ),
    decreases l.len() - i + r.len() - j,
{
    let slots = object_slots(l, r, i, j, path);
    if !(i < 0 || j < 0 || i > l.len() || j > r.len() || (i >= l.len() && j >= r.len())) {
        let (ni, nj) = if i >= l.len() {
            (i, j + 1)
        } else if j >= r.len() {
            (i + 1, j)
        } else if l[i].0 == r[j].0 {
            (i + 1, j + 1)
        } else if seq_lt(l[i].0, r[j].0) {
            (i + 1, j)
        } else {
            (i, j + 1)
        };
        lemma_object_slot_paths(l, r, ni, nj, path);
        let rest = object_slots(l, r, ni, nj, path);
        assert(slots == seq![slots[0]] + rest);
        assert forall|k: int| 0 <= k < slots.len() implies path.is_prefix_of(#[trigger] slots[k].path) by {
            if k == 0 {
                assert(slots[0].path.subrange(0, path.len() as int) =~= path);
            } else {
                assert(slots[k] == rest[k - 1]);
            }
        }
    }
}

proof fn lemma_slot_placed(l: JsonV, r: JsonV, s: Slot, path: Seq<char>)
    requires
        path.is_prefix_of(s.path),
    ensures
        well_placed(slot_diff(l, r, s), path),
    decreases l, 0int, 0int,
{
    match (s.left, s.right) {
        (Some(i), Some(j)) => match l {
            JsonV::Array(la) => if 0 <= i < la.len() {
                lemma_json_placed(la[i], child_of(r, j), s.path);
                lemma_placed_widen(slot_diff(l, r, s), path, s.path);
            },
            JsonV::Object(lo) => if 0 <= i < lo.len() {
                lemma_json_placed(lo[i].1, child_of(r, j), s.path);
                lemma_placed_widen(slot_diff(l, r, s), path, s.path);
            },
            _ => {},
        },
        (Some(i), None) => lemma_placed_single(removed_item(s.path, child_of(l, i)), path),
        (None, Some(j)) => lemma_placed_single(added_item(s.path, child_of(r, j)), path),
        (None, None) => {},
    }
}

proof fn lemma_slots_placed(l: JsonV, r: JsonV, slots: Seq<Slot>, path: Seq<char>)
    requires
        forall|k: int| 0 <= k < slots.len() ==> path.is_prefix_of(#[trigger] slots[k].path),
    ensures
        well_placed(slots_diff(l, r, slots), path),
    decreases l, 1int, slots.len(),
{
    if slots.len() > 0 {
        let init = slots.drop_last();
        assert forall|k: int| 0 <= k < init.len() implies path.is_prefix_of(#[trigger] init[k].path) by {
            assert(init[k] == slots[k]);
        }
        lemma_slots_placed(l, r, init, path);
        lemma_slot_placed(l, r, slots.last(), path);
        lemma_placed_concat(slots_diff(l, r, init), slot_diff(l, r, slots.last()), path);
    }
}

/// Every difference between two JSON values lands in the list its kind
/// names, under a path that extends the starting path (for `diff_json`,
/// one that starts with `$`).
pub proof fn lemma_json_placed(l: JsonV, r: JsonV, path: Seq<char>)
    ensures
        well_placed(json_diff(l, r, path), path),
    decreases l, 2int, 0int,
{
    if !json_same(l, r) {
        match (l, r) {
            (JsonV::Object(lo), JsonV::Object(ro)) => {
                lemma_object_slot_paths(lo, ro, 0, 0, path);
                lemma_slots_placed(l, r, object_slots(lo, ro, 0, 0, path), path);
            },
            (JsonV::Array(la), JsonV::Array(ra)) => {
                let slots = array_slots(la.len() as int, ra.len() as int, path);
                assert forall|k: int| 0 <= k < slots.len() implies path.is_prefix_of(#[trigger] slots[k].path) by {
                    assert(slots[k].path.subrange(0, path.len() as int) =~= path);
                }
                lemma_slots_placed(l, r, slots, path);
            },
            _ => {
                assert(path.subrange(0, path.len() as int) =~= path);
                lemma_placed_single(changed_item(path, l, r), path);
            },
        }
    }
}

/// A slot seen from the other side.
pub open spec fn flip_slot(s: Slot) -> Slot {
    Slot { path: s.path, left: s.right, right: s.left }
}

pub open spec fn flip_slots(slots: Seq<Slot>) -> Seq<Slot> {
    Seq::new(slots.len(), |k: int| flip_slot(slots[k]))
}

/// The number of children of a container.
pub open spec fn child_count(v: JsonV) -> int {
    match v {
        JsonV::Array(items) => items.len() as int,
        JsonV::Object(members) => members.len() as int,
        _ => 0,
    }
}

/// Two containers of one kind, and a slot whose indices are children of them.
pub open spec fn slot_fits(l: JsonV, r: JsonV, s: Slot) -> bool {
    &&& (l is Array && r is Array) || (l is Object && r is Object)
    &&& s.left matches Some(i) ==> 0 <= i < child_count(l)
    &&& s.right matches Some(j) ==> 0 <= j < child_count(r)
}

proof fn lemma_object_slots_swap(
    lo: Seq<(Seq<char>, JsonV)>,
    ro: Seq<(Seq<char>, JsonV)>,
    i: int,
    j: int,
    path: Seq<char>,
)
    ensures
        object_slots(ro, lo, j, i, path) == flip_slots(object_slots(lo, ro, i, j, path)),
        forall|k: int| 0 <= k < object_slots(lo, ro, i, j, path).len() ==> {
            let s = #[trigger] object_slots(lo, ro, i, j, path)[k];
            &&& s.left matches Some(a) ==> i <= a < lo.len()
            &&& s.right matches Some(b) ==> j <= b < ro.len()
        },
    decreases lo.len() - i + ro.len() - j,
{
    let slots = object_slots(lo, ro, i, j, path);
    if i < 0 || j < 0 || i > lo.len() || j > ro.len() || (i >= lo.len() && j >= ro.len()) {
        assert(object_slots(ro, lo, j, i, path) =~= flip_slots(slots));
    } else if i >= lo.len() {
        lemma_object_slots_swap(lo, ro, i, j + 1, path);
        assert(object_slots(ro, lo, j, i, path) =~= flip_slots(slots));
    } else if j >= ro.len() {
        lemma_object_slots_swap(lo, ro, i + 1, j, path);
        assert(object_slots(ro, lo, j, i, path) =~= flip_slots(slots));
    } else if lo[i].0 == ro[j].0 {
        lemma_object_slots_swap(lo, ro, i + 1, j + 1, path);
        assert(object_slots(ro, lo, j, i, path) =~= flip_slots(slots));
    } else if seq_lt(lo[i].0, ro[j].0) {
        lemma_seq_lt_asymmetric(lo[i].0, ro[j].0);
        lemma_object_slots_swap(lo, ro, i + 1, j, path);
        assert(object_slots(ro, lo, j, i, path) =~= flip_slots(slots));
    } else {
        lemma_seq_lt_total(lo[i].0, ro[j].0);
        lemma_object_slots_swap(lo, ro, i, j + 1, path);
        assert(object_slots(ro, lo, j, i, path) =~= flip_slots(slots));
    }
}

proof fn lemma_slot_swap(l: JsonV, r: JsonV, s: Slot)
    requires
        slot_fits(l, r, s),
    ensures
        slot_diff(r, l, flip_slot(s)) == flipped(slot_diff(l, r, s)),
    decreases l, 0int, 0int,
{
    match (s.left, s.right) {
        (Some(i), Some(j)) => match l {
            JsonV::Array(la) => {
                lemma_json_diff_swap(la[i], child_of(r, j), s.path);
            },
            JsonV::Object(lo) => {
                lemma_json_diff_swap(lo[i].1, child_of(r, j), s.path);
            },
            _ => {},
        },
        (Some(i), None) => {
            lemma_flipped_single(removed_item(s.path, child_of(l, i)));
        },
        (None, Some(j)) => {
            lemma_flipped_single(added_item(s.path, child_of(r, j)));
        },
        (None, None) => {
            lemma_flipped_single(removed_item(s.path, l));
        },
    }
}

proof fn lemma_slots_swap(l: JsonV, r: JsonV, slots: Seq<Slot>)
    requires
        forall|k: int| 0 <= k < slots.len() ==> slot_fits(l, r, #[trigger] slots[k]),
    ensures
        slots_diff(r, l, flip_slots(slots)) == flipped(slots_diff(l, r, slots)),
    decreases l, 1int, slots.len(),
{
    if slots.len() == 0 {
        lemma_flipped_single(removed_item(Seq::empty(), l));
        assert(flip_slots(slots) =~= Seq::<Slot>::empty());
    } else {
        let init = slots.drop_last();
        assert forall|k: int| 0 <= k < init.len() implies slot_fits(l, r, #[trigger] init[k]) by {
            assert(init[k] == slots[k]);
        }
        lemma_slots_swap(l, r, init);
        lemma_slot_swap(l, r, slots.last());
        assert(flip_slots(slots).drop_last() =~= flip_slots(init));
        assert(flip_slots(slots).last() == flip_slot(slots.last()));
        lemma_flipped_concat(slots_diff(l, r, init), slot_diff(l, r, slots.last()));
    }
}

/// Comparing the documents the other way round gives the same differences
/// seen from the other side: the additions become the removals and the
/// removals the additions, each with its values swapped, and each change
/// has its two values swapped, in the same order.
pub proof fn lemma_json_diff_swap(l: JsonV, r: JsonV, path: Seq<char>)
    ensures
        json_diff(r, l, path) == flipped(json_diff(l, r, path)),
    decreases l, 2int, 0int,
{
    lemma_flipped_single(changed_item(path, l, r));
    lemma_json_same_symmetric(l, r);
    if !json_same(l, r) {
        match (l, r) {
            (JsonV::Object(lo), JsonV::Object(ro)) => {
                let slots = object_slots(lo, ro, 0, 0, path);
                lemma_object_slots_swap(lo, ro, 0, 0, path);
                assert forall|k: int| 0 <= k < slots.len() implies slot_fits(l, r, #[trigger] slots[k]) by {
                }
                lemma_slots_swap(l, r, slots);
            },
            (JsonV::Array(la), JsonV::Array(ra)) => {
                let slots = array_slots(la.len() as int, ra.len() as int, path);
                assert(array_slots(ra.len() as int, la.len() as int, path) =~= flip_slots(slots));
                assert forall|k: int| 0 <= k < slots.len() implies slot_fits(l, r, #[trigger] slots[k]) by {
                }
                lemma_slots_swap(l, r, slots);
            },
            _ => {
                assert(flip_item(changed_item(path, l, r)) == changed_item(path, r, l));
            },
        }
    }
}

/// Compares two values and appends their differences to `result`.
#[verifier::loop_isolation(false)]
fn compare_json_values(left: &JsonValue, right: &JsonValue, path: &String, result: &mut DiffResult)
    ensures
        final(result)@ == old(result)@.concat(json_diff(left@, right@, path@)),
    decreases left,
{
    if json_eq(left, right) {
        proof {
            crate::diff_engine::lemma_concat_empty(old(result)@);
        }
        return;
    }
    let ghost l = left@;
    let ghost r = right@;
    match (left, right) {
        (JsonValue::Object(lm), JsonValue::Object(rm)) => {
            let ghost lo = l->Object_0;
            let ghost ro = r->Object_0;
            let ghost all = object_slots(lo, ro, 0, 0, path@);
            let ghost mut done: Seq<Slot> = Seq::empty();
            let ghost start = result@;
            let mut i: usize = 0;
            let mut j: usize = 0;
            proof {
                crate::diff_engine::lemma_concat_empty(start);
            }
            while i < lm.len() || j < rm.len()
                invariant
                    i <= lm.len(),
                    j <= rm.len(),
                    all == done + object_slots(lo, ro, i as int, j as int, path@),
                    result@ == start.concat(slots_diff(l, r, done)),
                decreases lm.len() - i + rm.len() - j,
            {
                let ghost s0 = object_slots(lo, ro, i as int, j as int, path@);
                let ghost before = result@;
                if i >= lm.len() {
                    let p = child_path_key(path, &rm[j].0);
                    let item = DiffItem {
                        path: p,
                        kind: DiffKind::Added,
                        left: None,
                        right: Some(value_to_compact_string(&rm[j].1)),
                    };
                    result.record(item);
                    proof {
                        let s = Slot { path: key_path(path@, ro[j as int].0), left: None, right: Some(j as int) };
                        assert(s0 == seq![s] + object_slots(lo, ro, i as int, j + 1, path@));
                        lemma_slots_push(l, r, done, s);
                        lemma_concat_assoc(start, slots_diff(l, r, done), slot_diff(l, r, s));
                        assert(done + s0 =~= done.push(s) + object_slots(lo, ro, i as int, j + 1, path@));
                        done = done.push(s);
                    }
                    j = j + 1;
                } else if j >= rm.len() {
                    let p = child_path_key(path, &lm[i].0);
                    let item = DiffItem {
                        path: p,
                        kind: DiffKind::Removed,
                        left: Some(value_to_compact_string(&lm[i].1)),
                        right: None,
                    };
                    result.record(item);
                    proof {
                        let s = Slot { path: key_path(path@, lo[i as int].0), left: Some(i as int), right: None };
                        assert(s0 == seq![s] + object_slots(lo, ro, i + 1, j as int, path@));
                        lemma_slots_push(l, r, done, s);
                        lemma_concat_assoc(start, slots_diff(l, r, done), slot_diff(l, r, s));
                        assert(done + s0 =~= done.push(s) + object_slots(lo, ro, i + 1, j as int, path@));
                        done = done.push(s);
                    }
                    i = i + 1;
                } else {
                    let lk = chars_of(lm[i].0.as_str());
                    let rk = chars_of(rm[j].0.as_str());
                    if crate::text::chars_eq(&lk, &rk) {
                        let p = child_path_key(path, &lm[i].0);
                        proof {
                            assert(decreases_to!(left => lm@[i as int].1));
                        }
                        compare_json_values(&lm[i].1, &rm[j].1, &p, result);
                        proof {
                            let s = Slot {
                                path: key_path(path@, lo[i as int].0),
                                left: Some(i as int),
                                right: Some(j as int),
                            };
                            assert(s0 == seq![s] + object_slots(lo, ro, i + 1, j + 1, path@));
                            assert(slot_diff(l, r, s) == json_diff(lm@[i as int].1@, rm@[j as int].1@, p@));
                            lemma_slots_push(l, r, done, s);
                            lemma_concat_assoc(start, slots_diff(l, r, done), slot_diff(l, r, s));
                            assert(done + s0 =~= done.push(s) + object_slots(lo, ro, i + 1, j + 1, path@));
                            done = done.push(s);
                        }
                        i = i + 1;
                        j = j + 1;
                    } else if chars_lt(&lk, &rk) {
                        let p = child_path_key(path, &lm[i].0);
                        let item = DiffItem {
                            path: p,
                            kind: DiffKind::Removed,
                            left: Some(value_to_compact_string(&lm[i].1)),
                            right: None,
                        };
                        result.record(item);
                        proof {
                            let s = Slot { path: key_path(path@, lo[i as int].0), left: Some(i as int), right: None };
                            assert(s0 == seq![s] + object_slots(lo, ro, i + 1, j as int, path@));
                            lemma_slots_push(l, r, done, s);
                            lemma_concat_assoc(start, slots_diff(l, r, done), slot_diff(l, r, s));
                            assert(done + s0 =~= done.push(s) + object_slots(lo, ro, i + 1, j as int, path@));
                            done = done.push(s);
                        }
                        i = i + 1;
                    } else {
                        let p = child_path_key(path, &rm[j].0);
                        let item = DiffItem {
                            path: p,
                            kind: DiffKind::Added,
                            left: None,
                            right: Some(value_to_compact_string(&rm[j].1)),
                        };
                        result.record(item);
                        proof {
                            let s = Slot { path: key_path(path@, ro[j as int].0), left: None, right: Some(j as int) };
                            assert(s0 == seq![s] + object_slots(lo, ro, i as int, j + 1, path@));
                            lemma_slots_push(l, r, done, s);
                            lemma_concat_assoc(start, slots_diff(l, r, done), slot_diff(l, r, s));
                            assert(done + s0 =~= done.push(s) + object_slots(lo, ro, i as int, j + 1, path@));
                            done = done.push(s);
                        }
                        j = j + 1;
                    }
                }
            }
            assert(done =~= all);
        },
        (JsonValue::Array(la), JsonValue::Array(ra)) => {
            let n: usize = if la.len() >= ra.len() { la.len() } else { ra.len() };
            let ghost all = array_slots(la.len() as int, ra.len() as int, path@);
            let ghost start = result@;
            let mut i: usize = 0;
            proof {
                crate::diff_engine::lemma_concat_empty(start);
                assert(all.take(0) =~= Seq::<Slot>::empty());
            }
            while i < n
                invariant
                    i <= n,
                    all.len() == n,
                    result@ == start.concat(slots_diff(l, r, all.take(i as int))),
                decreases n - i,
            {
                let ghost before = result@;
                let p = child_path_index(path, i);
                let ghost s = all[i as int];
                if i < la.len() && i < ra.len() {
                    proof {
                        assert(decreases_to!(left => la@[i as int]));
                    }
                    compare_json_values(&la[i], &ra[i], &p, result);
                    proof {
                        assert(slot_diff(l, r, s) == json_diff(la@[i as int]@, ra@[i as int]@, p@));
                    }
                } else if i < la.len() {
                    let item = DiffItem {
                        path: p,
                        kind: DiffKind::Removed,
                        left: Some(value_to_compact_string(&la[i])),
                        right: None,
                    };
                    result.record(item);
                } else {
                    let item = DiffItem {
                        path: p,
                        kind: DiffKind::Added,
                        left: None,
                        right: Some(value_to_compact_string(&ra[i])),
                    };
                    result.record(item);
                }
                proof {
                    assert(all.take(i + 1) =~= all.take(i as int).push(s));
                    lemma_slots_push(l, r, all.take(i as int), s);
                    lemma_concat_assoc(start, slots_diff(l, r, all.take(i as int)), slot_diff(l, r, s));
                }
                i = i + 1;
            }
            assert(all.take(n as int) =~= all);
        },
        _ => {
            let item = DiffItem {
                path: path.clone(),
                kind: DiffKind::Changed,
                left: Some(value_to_compact_string(left)),
                right: Some(value_to_compact_string(right)),
            };
            result.record(item);
        },
    }
}

/// The semantic differences between two JSON documents; paths start at `$`.
pub fn diff_json(left: &JsonValue, right: &JsonValue) -> (r: DiffResult)
    ensures
        r@ == json_diff(left@, right@, seq!['$']),
{
    let mut result = DiffResult::new();
    let mut root = String::new();
    root.push('$');
    compare_json_values(left, right, &root, &mut result);
    proof {
        crate::diff_engine::lemma_concat_empty(Diffs::empty());
        assert(Diffs::empty().concat(json_diff(left@, right@, seq!['$'])) == json_diff(left@, right@, seq!['$'])) by {
            let d = json_diff(left@, right@, seq!['$']);
            assert(Diffs::empty().concat(d).added =~= d.added);
            assert(Diffs::empty().concat(d).removed =~= d.removed);
            assert(Diffs::empty().concat(d).changed =~= d.changed);
        }
    }
    result
}

/// A difference shows each value as its compact JSON text (`null`,
/// `true` or `false`, a number's own text, compact arrays and objects),
/// except a string, which is shown between plain quotes.
pub proof fn lemma_value_display(v: JsonV)
    ensures
        v matches JsonV::Str(s) ==> value_display(v) == seq!['"'] + s + seq!['"'],
        !(v is Str) ==> value_display(v) == compact_text(v),
        v is Null ==> value_display(v) == seq!['n', 'u', 'l', 'l'],
        v matches JsonV::Bool(b) ==> value_display(v) == (if b {
            seq!['t', 'r', 'u', 'e']
        } else {
            seq!['f', 'a', 'l', 's', 'e']
        }),
        v matches JsonV::Number(t) ==> value_display(v) == t,
{
}

/// Two values that differ and are not two containers of one kind give a
/// single change at the path, showing the left value's text on the left
/// and the right value's on the right (as compact JSON when it is not a
/// string).
pub proof fn lemma_scalar_change_shown(l: JsonV, r: JsonV, path: Seq<char>)
    requires
        !json_same(l, r),
        !(l is Array && r is Array),
        !(l is Object && r is Object),
    ensures
        json_diff(l, r, path) == Diffs::single(
            DiffItemV { path, kind: DiffKind::Changed, left: Some(value_display(l)), right: Some(value_display(r)) },
        ),
        !(l is Str) ==> value_display(l) == compact_text(l),
        !(r is Str) ==> value_display(r) == compact_text(r),
{
    lemma_value_display(l);
    lemma_value_display(r);
}

} // verus!
