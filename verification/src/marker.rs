use std::collections::VecDeque;
use vstd::prelude::*;

verus! {

/// The most markers that a list keeps; the oldest is reused beyond that.
pub const MAX_SEARCH_MARKER: usize = 80;

/// What the marker logic reads of one item of a list type.
#[derive(Debug, Clone, Copy, PartialEq, Eq)]
pub struct ItemInfo {
    /// The item counts towards the list's positions (it holds countable,
    /// undeleted content).
    pub indexable: bool,
    /// The number of positions that the item takes when it counts.
    pub len: u64,
    /// The client that created the item.
    pub client: u64,
    /// The clock of the item's first position at that client.
    pub clock: u64,
}

/// The items of a list type from left to right, and the length of its
/// content. A position in `items` stands for a pointer to an item: the
/// item to the left of `p` is `p - 1`, the one to its right `p + 1`, and the
/// list starts at `0`.
#[derive(Debug, Clone)]
pub struct ListItems {
    pub items: Vec<ItemInfo>,
    pub len: u64,
}

/// A cached position: an item and the list position at which it starts.
#[derive(Debug, Clone, Copy, PartialEq, Eq)]
pub struct SearchMarker {
    pub ptr: Option<usize>,
    pub index: u64,
}

/// The positions that an item takes in the list.
pub open spec fn item_width(it: ItemInfo) -> int {
    if it.indexable {
        it.len as int
    } else {
        0
    }
}

/// The list position at which item `p` starts: the positions taken by the
/// items before it.
pub open spec fn offset(items: Seq<ItemInfo>, p: int) -> int
    decreases p,
{
    if p <= 0 {
        0
    } else {
        offset(items, p - 1) + item_width(items[p - 1])
    }
}

/// The marker points to an item of the list and holds that item's position.
pub open spec fn marker_consistent(m: SearchMarker, items: Seq<ItemInfo>) -> bool {
    &&& m.ptr is Some
    &&& (m.ptr->0 as int) < items.len()
    &&& m.index as int == offset(items, m.ptr->0 as int)
}

/// Every marker points to an item of the list and holds that item's position.
pub open spec fn markers_consistent(ms: Seq<SearchMarker>, items: Seq<ItemInfo>) -> bool {
    forall|i: int| 0 <= i < ms.len() ==> #[trigger] marker_consistent(ms[i], items)
}

impl ListItems {
    /// The list is well formed: its length is the positions its items take,
    /// and they fit in a `u64`.
    pub open spec fn wf(&self) -> bool {
        &&& offset(self.items@, self.items@.len() as int) <= u64::MAX
        &&& self.len as int == offset(self.items@, self.items@.len() as int)
    }
}

/// The walk to the right from item `p`, at position `mi`, towards position
/// `index`: it stops once `mi` reaches `index`, at the counted item that
/// holds `index`, or at the last item; an item that is not in the list is
/// not walked from. The last component is false when a step would take the
/// position past `u64::MAX`.
pub open spec fn walk_right(items: Seq<ItemInfo>, p: int, mi: int, index: int) -> (int, int, bool)
    decreases items.len() - p,
{
    if p < 0 || p + 1 >= items.len() || mi >= index {
        (p, mi, true)
    } else if items[p].indexable {
        if mi + items[p].len > u64::MAX {
            (p, mi, false)
        } else if index < mi + items[p].len {
            (p, mi, true)
        } else {
            walk_right(items, p + 1, mi + items[p].len, index)
        }
    } else {
        walk_right(items, p + 1, mi, index)
    }
}

/// The walk to the left from item `p`, at position `mi`: it stops once `mi`
/// is at or before `index`, or at the first item. The last component is
/// false when a step would take the position below 0.
pub open spec fn walk_left(items: Seq<ItemInfo>, p: int, mi: int, index: int) -> (int, int, bool)
    decreases p,
{
    if p <= 0 || p >= items.len() || mi <= index {
        (p, mi, true)
    } else if items[p - 1].indexable {
        if mi < items[p - 1].len {
            (p, mi, false)
        } else {
            walk_left(items, p - 1, mi - items[p - 1].len, index)
        }
    } else {
        walk_left(items, p - 1, mi, index)
    }
}

/// Item `l` directly precedes item `r` in the history of one client, so
/// that the two could be one item.
pub open spec fn mergeable(l: ItemInfo, r: ItemInfo) -> bool {
    l.client == r.client && l.clock + l.len == r.clock
}

/// The walk to the left from item `p`, at position `mi`, over items that
/// could be merged with their right neighbour. The last component is false
/// when a step would take the position below 0.
pub open spec fn walk_merge(items: Seq<ItemInfo>, p: int, mi: int) -> (int, int, bool)
    decreases p,
{
    if p <= 0 || p >= items.len() || !mergeable(items[p - 1], items[p]) {
        (p, mi, true)
    } else if items[p - 1].indexable {
        if mi < items[p - 1].len {
            (p, mi, false)
        } else {
            walk_merge(items, p - 1, mi - items[p - 1].len)
        }
    } else {
        walk_merge(items, p - 1, mi)
    }
}

/// Where a search for `index` that starts at item `ptr`, at position `mi`,
/// settles: the item, its position, and whether no step left the range of
/// a `u64`. A search from no item stays there.
pub open spec fn settle(items: Seq<ItemInfo>, ptr: Option<usize>, mi: int, index: int) -> (
    Option<usize>,
    int,
    bool,
) {
    match ptr {
        None => (None, mi, true),
        Some(p) => {
            let r = walk_right(items, p as int, mi, index);
            let l = walk_left(items, r.0, r.1, index);
            let m = walk_merge(items, l.0, l.1);
            (Some(m.0 as usize), m.1, r.2 && l.2 && m.2)
        },
    }
}

/// How far a marker lies from position `index`.
pub open spec fn distance(m: SearchMarker, index: u64) -> int {
    if m.index >= index {
        m.index - index
    } else {
        index - m.index
    }
}

/// The first of the first `n` markers that lies closest to `index`, or -1
/// when `n` is 0.
pub open spec fn closest(ms: Seq<SearchMarker>, index: u64, n: int) -> int
    decreases n,
{
    if n <= 0 {
        -1
    } else {
        let b = closest(ms, index, n - 1);
        if b < 0 || distance(ms[n - 1], index) < distance(ms[b], index) {
            n - 1
        } else {
            b
        }
    }
}

/// The markers after `m` has been recorded: the oldest is dropped when the
/// list is full, and `m` is placed last.
pub open spec fn pushed_marker(ms: Seq<SearchMarker>, m: SearchMarker) -> Seq<SearchMarker> {
    if ms.len() >= MAX_SEARCH_MARKER {
        ms.drop_first().push(m)
    } else {
        ms.push(m)
    }
}

/// Where a search for `index` begins: at the marker `b`, or at the list's
/// first item, position 0, when there is no marker.
pub open spec fn search_start(ms: Seq<SearchMarker>, b: int) -> (Option<usize>, int) {
    if b >= 0 {
        (ms[b].ptr, ms[b].index as int)
    } else {
        (Some(0usize), 0)
    }
}

/// Where a search for `index` from the marker closest to it settles.
pub open spec fn search_result(ms: Seq<SearchMarker>, items: Seq<ItemInfo>, index: u64) -> (
    Option<usize>,
    int,
    bool,
) {
    let st = search_start(ms, closest(ms, index, ms.len() as int));
    settle(items, st.0, st.1, index as int)
}

/// The search for `index` keeps every position within a `u64`.
pub open spec fn search_safe(ms: Seq<SearchMarker>, items: Seq<ItemInfo>, index: u64) -> bool {
    search_result(ms, items, index).2
}

/// The marker that a search for `index` arrives at.
pub open spec fn settled_marker(ms: Seq<SearchMarker>, items: Seq<ItemInfo>, index: u64) -> SearchMarker {
    let r = search_result(ms, items, index);
    SearchMarker { ptr: r.0, index: r.1 as u64 }
}

/// Whether the search reuses the closest marker `b` rather than recording a
/// new one: it does when the marker moves by less than an eightieth of the
/// list's length.
pub open spec fn reuses_marker(ms: Seq<SearchMarker>, b: int, found: SearchMarker, list_len: u64) -> bool {
    b >= 0 && 80 * distance(ms[b], found.index) < list_len
}

/// The walk of a marker from an uncounted item to the left after content
/// was added: it steps over uncounted items, taking off the width of the
/// counted item that it stops on; a marker that reaches the first item goes
/// to position 0.
pub open spec fn settle_counted(items: Seq<ItemInfo>, p: int, idx: int) -> (int, int)
    decreases p,
{
    if p < 0 || p >= items.len() || items[p].indexable {
        (p, idx)
    } else if p > 0 {
        settle_counted(
            items,
            p - 1,
            if items[p - 1].indexable {
                idx - items[p - 1].len
            } else {
                idx
            },
        )
    } else {
        (p, 0)
    }
}

/// The walk of [`settle_counted`] never takes a width larger than the
/// position it takes it from.
pub open spec fn settle_safe(items: Seq<ItemInfo>, p: int, idx: int) -> bool
    decreases p,
{
    if p < 0 || p >= items.len() || items[p].indexable {
        true
    } else if p > 0 {
        &&& (items[p - 1].indexable ==> idx >= items[p - 1].len)
        &&& settle_safe(
            items,
            p - 1,
            if items[p - 1].indexable {
                idx - items[p - 1].len
            } else {
                idx
            },
        )
    } else {
        true
    }
}

/// A marker after `len` positions were added (or, when negative, removed)
/// at position `index`: when content was added, a marker on an uncounted
/// item first moves left to a counted one; a marker after the change, or
/// at it when content was added, then shifts by `len`, but not below
/// `index`.
pub open spec fn adjusted(m: SearchMarker, items: Seq<ItemInfo>, index: u64, len: i64) -> SearchMarker {
    let m1 = settled_first(m, items, len);
    if shifts(m1, index, len) {
        let a = index as i64;
        let b = (m1.index as i64) + len;
        SearchMarker {
            ptr: m1.ptr,
            index: (if a >= b {
                a as int
            } else {
                b
            }) as u64,
        }
    } else {
        m1
    }
}

/// A marker after its first step of [`adjusted`]: when content was added, a
/// marker on an uncounted item moves left to a counted one.
pub open spec fn settled_first(m: SearchMarker, items: Seq<ItemInfo>, len: i64) -> SearchMarker {
    if len > 0 && m.ptr is Some {
        let (p, i) = settle_counted(items, m.ptr->0 as int, m.index as int);
        SearchMarker { ptr: Some(p as usize), index: i as u64 }
    } else {
        m
    }
}

/// The marker `m1` lies after the change at `index`, or at it when content
/// was added, so that it shifts.
pub open spec fn shifts(m1: SearchMarker, index: u64, len: i64) -> bool {
    m1.ptr is Some && (index < m1.index || (len > 0 && index == m1.index))
}

/// What [`adjusted`] needs to stay within the machine's integers: the walk
/// left never takes a width larger than the position, and a shifted
/// position fits in an `i64`.
pub open spec fn adjust_safe(m: SearchMarker, items: Seq<ItemInfo>, index: u64, len: i64) -> bool {
    &&& len > 0 && m.ptr is Some ==> settle_safe(items, m.ptr->0 as int, m.index as int)
    &&& shifts(settled_first(m, items, len), index, len) ==> i64::MIN <= (settled_first(
        m,
        items,
        len,
    ).index as i64) + len <= i64::MAX
}

/// The markers after a change of `len` positions at `index`: each marker is
/// adjusted, and those left at position 0 are dropped.
pub open spec fn adjusted_markers(
    ms: Seq<SearchMarker>,
    items: Seq<ItemInfo>,
    index: u64,
    len: i64,
) -> Seq<SearchMarker>
    decreases ms.len(),
{
    if ms.len() == 0 {
        seq![]
    } else {
        let rest = adjusted_markers(ms.drop_last(), items, index, len);
        let a = adjusted(ms.last(), items, index, len);
        if a.index > 0 {
            rest.push(a)
        } else {
            rest
        }
    }
}

/// A marker after the item `raw` was replaced by `new`, which starts
/// `shift` positions later.
pub open spec fn replaced(m: SearchMarker, raw: Option<usize>, new: Option<usize>, shift: i64) -> SearchMarker {
    if m.ptr == raw {
        SearchMarker { ptr: new, index: ((m.index as i64) + shift) as u64 }
    } else {
        m
    }
}

// ---------------------------------------------------------------------------
// Lemmas
// ---------------------------------------------------------------------------

proof fn lemma_offset_mono(items: Seq<ItemInfo>, p: int, q: int)
    requires
        0 <= p <= q,
    ensures
        offset(items, p) <= offset(items, q),
    decreases q - p,
{
    if p < q {
        lemma_offset_mono(items, p, q - 1);
    }
}

proof fn lemma_closest_range(ms: Seq<SearchMarker>, index: u64, n: int)
    requires
        0 <= n,
    ensures
        -1 <= closest(ms, index, n) < n,
        n > 0 ==> closest(ms, index, n) >= 0,
    decreases n,
{
    if n > 0 {
        lemma_closest_range(ms, index, n - 1);
    }
}

/// The marker that [`closest`] picks lies no further from `index` than any
/// other, and every marker before it lies strictly further.
pub proof fn lemma_closest_is_nearest(ms: Seq<SearchMarker>, index: u64, n: int)
    requires
        0 < n <= ms.len(),
    ensures
        ({
            let b = closest(ms, index, n);
            &&& 0 <= b < n
            &&& forall|j: int| 0 <= j < n ==> distance(ms[b], index) <= #[trigger] distance(ms[j], index)
            &&& forall|j: int| 0 <= j < b ==> distance(ms[b], index) < #[trigger] distance(ms[j], index)
        }),
    decreases n,
{
    lemma_closest_range(ms, index, n);
    if n > 1 {
        lemma_closest_is_nearest(ms, index, n - 1);
    }
}

proof fn lemma_offset_nonneg(items: Seq<ItemInfo>, p: int)
    ensures
        offset(items, p) >= 0,
    decreases p,
{
    if p > 0 {
        lemma_offset_nonneg(items, p - 1);
    }
}

proof fn lemma_walk_right_consistent(items: Seq<ItemInfo>, p: int, index: int)
    requires
        0 <= p < items.len(),
        offset(items, items.len() as int) <= u64::MAX,
    ensures
        ({
            let r = walk_right(items, p, offset(items, p), index);
            &&& r.2
            &&& p <= r.0 < items.len()
            &&& r.1 == offset(items, r.0)
            &&& r.0 + 1 == items.len() || r.1 >= index || (r.1 <= index < offset(items, r.0 + 1))
        }),
    decreases items.len() - p,
{
    if !(p + 1 >= items.len() || offset(items, p) >= index) {
        lemma_offset_mono(items, p + 1, items.len() as int);
        lemma_walk_right_consistent(items, p + 1, index);
    }
}

proof fn lemma_walk_left_consistent(items: Seq<ItemInfo>, p: int, index: int)
    requires
        0 <= p < items.len(),
        index >= 0,
    ensures
        ({
            let r = walk_left(items, p, offset(items, p), index);
            &&& r.2
            &&& 0 <= r.0 <= p
            &&& r.1 == offset(items, r.0)
            &&& r.1 <= index
            &&& r.0 == p || index < offset(items, r.0 + 1)
        }),
    decreases p,
{
    if p > 0 && offset(items, p) > index {
        lemma_offset_nonneg(items, p - 1);
        lemma_walk_left_consistent(items, p - 1, index);
    }
}

proof fn lemma_walk_merge_consistent(items: Seq<ItemInfo>, p: int)
    requires
        0 <= p < items.len(),
    ensures
        ({
            let r = walk_merge(items, p, offset(items, p));
            &&& r.2
            &&& 0 <= r.0 <= p
            &&& r.1 == offset(items, r.0)
            &&& forall|i: int|
                r.0 < i <= p ==> (#[trigger] items[i - 1]).client == items[i].client
                    && items[i - 1].clock + items[i - 1].len == items[i].clock
            &&& r.0 == 0 || !(items[r.0 - 1].client == items[r.0].client && items[r.0 - 1].clock
                + items[r.0 - 1].len == items[r.0].clock)
        }),
    decreases p,
{
    if p > 0 && mergeable(items[p - 1], items[p]) {
        lemma_offset_nonneg(items, p - 1);
        lemma_walk_merge_consistent(items, p - 1);
    }
}

/// A search that starts at a consistent marker, or at the first item, in a
/// well-formed list stays within a `u64` and settles at an item of the list,
/// at that item's position, at or before the position searched for.
pub proof fn lemma_consistent_search(ms: Seq<SearchMarker>, list: ListItems, index: u64)
    requires
        list.wf(),
        list.items@.len() > 0,
        markers_consistent(ms, list.items@),
    ensures
        search_safe(ms, list.items@, index),
        marker_consistent(settled_marker(ms, list.items@, index), list.items@),
        settled_marker(ms, list.items@, index).index <= index,
{
    let items = list.items@;
    let b = closest(ms, index, ms.len() as int);
    lemma_closest_range(ms, index, ms.len() as int);
    let st = search_start(ms, b);
    if b >= 0 {
        assert(marker_consistent(ms[b], items));
    }
    let p = st.0->0 as int;
    assert(st.1 == offset(items, p));
    lemma_walk_right_consistent(items, p, index as int);
    let r = walk_right(items, p, st.1, index as int);
    lemma_walk_left_consistent(items, r.0, index as int);
    let l = walk_left(items, r.0, r.1, index as int);
    lemma_walk_merge_consistent(items, l.0);
    let m = walk_merge(items, l.0, l.1);
    lemma_offset_mono(items, m.0, l.0);
    lemma_offset_nonneg(items, m.0);
    lemma_offset_mono(items, m.0, items.len() as int);
    assert(0 <= m.0 < items.len());
    assert(list.items.len() == list.items@.len());
    assert((m.0 as usize) as int == m.0);
    assert((m.1 as u64) as int == m.1);
}

/// A search for `index` that starts at a consistent marker, or at the first
/// item, in a well-formed list settles at an item `q` such that some item
/// `l` at or after it starts at or before `index` and either holds `index`,
/// starts exactly there, or is the last item; and every item from `q` to
/// `l` continues the previous one in the history of one client (same client,
/// clocks that follow on), while `q` does not continue the item before it.
/// So the search never steps back across two items of different clients or
/// with a gap in their clocks, and stops at the first such break.
pub proof fn lemma_search_lands_at_index(ms: Seq<SearchMarker>, list: ListItems, index: u64)
    requires
        list.wf(),
        list.items@.len() > 0,
        markers_consistent(ms, list.items@),
    ensures
        settled_marker(ms, list.items@, index).ptr is Some,
        ({
            let items = list.items@;
            let q = settled_marker(ms, items, index).ptr->0 as int;
            q == 0 || !(items[q - 1].client == items[q].client && items[q - 1].clock + items[q
                - 1].len == items[q].clock)
        }),
        ({
            let items = list.items@;
            let q = settled_marker(ms, items, index).ptr->0 as int;
            exists|l: int|
                q <= l < items.len() && #[trigger] offset(items, l) <= index && (index < offset(
                    items,
                    l + 1,
                ) || offset(items, l) == index || l == items.len() - 1) && forall|i: int|
                    q < i <= l ==> (#[trigger] items[i - 1]).client == items[i].client
                        && items[i - 1].clock + items[i - 1].len == items[i].clock
        }),
{
    let items = list.items@;
    let b = closest(ms, index, ms.len() as int);
    lemma_closest_range(ms, index, ms.len() as int);
    let st = search_start(ms, b);
    if b >= 0 {
        assert(marker_consistent(ms[b], items));
    }
    let p = st.0->0 as int;
    lemma_walk_right_consistent(items, p, index as int);
    let r = walk_right(items, p, st.1, index as int);
    lemma_walk_left_consistent(items, r.0, index as int);
    let l = walk_left(items, r.0, r.1, index as int);
    lemma_walk_merge_consistent(items, l.0);
    let m = walk_merge(items, l.0, l.1);
    lemma_consistent_search(ms, list, index);
    assert(st.1 == offset(items, p));
    assert(0 <= m.0 < items.len());
    assert(list.items.len() == list.items@.len());
    assert((m.0 as usize) as int == m.0);
    assert(settled_marker(ms, items, index).ptr == Some(m.0 as usize));
    let ll = l.0;
    assert(offset(items, ll) <= index);
    assert(index < offset(items, ll + 1) || offset(items, ll) == index || ll == items.len() - 1);
}

proof fn lemma_settle_counted_bounds(items: Seq<ItemInfo>, p: int, idx: int)
    requires
        settle_safe(items, p, idx),
        0 <= idx,
    ensures
        0 <= settle_counted(items, p, idx).1 <= idx,
    decreases p,
{
    if !(p < 0 || p >= items.len() || items[p].indexable) && p > 0 {
        lemma_settle_counted_bounds(
            items,
            p - 1,
            if items[p - 1].indexable {
                idx - items[p - 1].len
            } else {
                idx
            },
        );
    }
}

proof fn lemma_adjusted_markers_len(ms: Seq<SearchMarker>, items: Seq<ItemInfo>, index: u64, len: i64)
    ensures
        adjusted_markers(ms, items, index, len).len() <= ms.len(),
    decreases ms.len(),
{
    if ms.len() > 0 {
        lemma_adjusted_markers_len(ms.drop_last(), items, index, len);
    }
}

/// How a change moves a marker that is already on a counted item of the
/// list. After `len > 0` positions were added at `index`, a marker at or
/// after `index` moves `len` positions on, and one before `index` stays.
/// After `-len` positions were removed at `index`, a marker after `index`
/// moves back by `-len` positions, but not below `index`, and one at or
/// before `index` stays, whatever item it is on. A marker on no item stays
/// in every case.
pub proof fn lemma_adjusted_shift(m: SearchMarker, items: Seq<ItemInfo>, index: u64, len: i64)
    ensures
        m.ptr is None ==> adjusted(m, items, index, len) == m,
        len > 0 && m.ptr is Some && (m.ptr->0 as int) < items.len() && items[m.ptr->0 as int].indexable
            && m.index >= index && m.index + len <= i64::MAX ==> adjusted(m, items, index, len) == (
        SearchMarker { ptr: m.ptr, index: (m.index + len) as u64 }),
        len > 0 && m.ptr is Some && (m.ptr->0 as int) < items.len() && items[m.ptr->0 as int].indexable
            && m.index < index ==> adjusted(m, items, index, len) == m,
        len <= 0 && m.ptr is Some && index < m.index && m.index <= i64::MAX ==> adjusted(
            m,
            items,
            index,
            len,
        ) == (SearchMarker {
            ptr: m.ptr,
            index: (if m.index + len >= index {
                m.index + len
            } else {
                index as int
            }) as u64,
        }),
        len <= 0 && m.index <= index ==> adjusted(m, items, index, len) == m,
{
    if len > 0 && m.ptr is Some && (m.ptr->0 as int) < items.len() && items[m.ptr->0 as int].indexable {
        let p = m.ptr->0 as int;
        assert(settle_counted(items, p, m.index as int) == (p, m.index as int));
        assert((p as usize) == m.ptr->0);
        assert(settled_first(m, items, len) == m);
    }
}

/// After a change, every marker that its adjustment leaves at a position
/// above 0 is among the markers kept.
pub proof fn lemma_adjusted_markers_contains(
    ms: Seq<SearchMarker>,
    items: Seq<ItemInfo>,
    index: u64,
    len: i64,
    i: int,
)
    requires
        0 <= i < ms.len(),
        adjusted(ms[i], items, index, len).index > 0,
    ensures
        adjusted_markers(ms, items, index, len).contains(adjusted(ms[i], items, index, len)),
    decreases ms.len(),
{
    let rest = adjusted_markers(ms.drop_last(), items, index, len);
    let a = adjusted(ms.last(), items, index, len);
    let out = adjusted_markers(ms, items, index, len);
    if i == ms.len() - 1 {
        assert(out == rest.push(a));
        assert(out[rest.len() as int] == a);
    } else {
        assert(ms.drop_last()[i] == ms[i]);
        lemma_adjusted_markers_contains(ms.drop_last(), items, index, len, i);
        let k = choose|k: int| 0 <= k < rest.len() && rest[k] == adjusted(ms[i], items, index, len);
        if a.index > 0 {
            assert(out == rest.push(a));
            assert(out[k] == rest[k]);
        }
    }
}

/// `f` picks, in increasing order, the markers of `ms` that `out` keeps:
/// each kept marker is the adjusted form of the marker it is picked from.
pub open spec fn keeps_in_order(
    out: Seq<SearchMarker>,
    ms: Seq<SearchMarker>,
    f: Seq<int>,
    items: Seq<ItemInfo>,
    index: u64,
    len: i64,
) -> bool {
    &&& f.len() == out.len()
    &&& forall|k: int| 0 <= k < f.len() ==> 0 <= #[trigger] f[k] < ms.len()
    &&& forall|k: int, l: int| 0 <= k < l < f.len() ==> #[trigger] f[k] < #[trigger] f[l]
    &&& forall|k: int|
        0 <= k < out.len() ==> #[trigger] out[k] == adjusted(ms[f[k]], items, index, len)
}

/// After a change, the markers left are, in their old order, adjusted forms
/// of old markers, none added, and every one of them holds a position above 0.
pub proof fn lemma_adjusted_markers_subsequence(
    ms: Seq<SearchMarker>,
    items: Seq<ItemInfo>,
    index: u64,
    len: i64,
) -> (f: Seq<int>)
    ensures
        keeps_in_order(adjusted_markers(ms, items, index, len), ms, f, items, index, len),
        forall|k: int|
            0 <= k < adjusted_markers(ms, items, index, len).len() ==> (#[trigger] adjusted_markers(
                ms,
                items,
                index,
                len,
            )[k]).index > 0,
    decreases ms.len(),
{
    if ms.len() == 0 {
        Seq::empty()
    } else {
        let t = ms.drop_last();
        let g = lemma_adjusted_markers_subsequence(t, items, index, len);
        let rest = adjusted_markers(t, items, index, len);
        let a = adjusted(ms.last(), items, index, len);
        assert forall|k: int| 0 <= k < g.len() implies ms[g[k]] == t[g[k]] by {}
        if a.index > 0 {
            let f = g.push(ms.len() - 1);
            let out = adjusted_markers(ms, items, index, len);
            assert(out == rest.push(a));
            assert forall|k: int| 0 <= k < out.len() implies #[trigger] out[k] == adjusted(
                ms[f[k]],
                items,
                index,
                len,
            ) by {
                if k < rest.len() {
                    assert(out[k] == rest[k]);
                    assert(ms[g[k]] == t[g[k]]);
                }
            }
            assert forall|k: int, l: int| 0 <= k < l < f.len() implies #[trigger] f[k]
                < #[trigger] f[l] by {
                if l < g.len() {
                    assert(f[k] == g[k] && f[l] == g[l]);
                }
            }
            f
        } else {
            assert forall|k: int| 0 <= k < rest.len() implies #[trigger] rest[k] == adjusted(
                ms[g[k]],
                items,
                index,
                len,
            ) by {
                assert(ms[g[k]] == t[g[k]]);
            }
            g
        }
    }
}

/// `after` is `before` with the items `q..r` deleted: the same items in the
/// same places, those of `q..r` no longer counted.
pub open spec fn deletes_items(before: Seq<ItemInfo>, after: Seq<ItemInfo>, q: int, r: int) -> bool {
    &&& before.len() == after.len()
    &&& 0 <= q <= r <= before.len()
    &&& forall|i: int| 0 <= i < before.len() && q <= i < r ==> !(#[trigger] after[i]).indexable
    &&& forall|i: int| 0 <= i < before.len() && !(q <= i < r) ==> #[trigger] after[i] == before[i]
}

proof fn lemma_offset_after_delete(
    before: Seq<ItemInfo>,
    after: Seq<ItemInfo>,
    q: int,
    r: int,
    p: int,
)
    requires
        deletes_items(before, after, q, r),
        0 <= p <= before.len(),
    ensures
        offset(after, p) == if p <= q {
            offset(before, p)
        } else if p <= r {
            offset(before, q)
        } else {
            offset(before, p) - (offset(before, r) - offset(before, q))
        },
    decreases p,
{
    if p > 0 {
        lemma_offset_after_delete(before, after, q, r, p - 1);
        if q <= p - 1 < r {
            assert(!after[p - 1].indexable);
        } else {
            assert(after[p - 1] == before[p - 1]);
        }
    }
}

proof fn lemma_delete_marker(m: SearchMarker, before: Seq<ItemInfo>, after: Seq<ItemInfo>, q: int, r: int)
    requires
        marker_consistent(m, before),
        deletes_items(before, after, q, r),
        offset(before, before.len() as int) <= i64::MAX,
    ensures
        ({
            let index = offset(before, q) as u64;
            let len = (offset(before, q) - offset(before, r)) as i64;
            &&& adjust_safe(m, after, index, len)
            &&& marker_consistent(adjusted(m, after, index, len), after)
        }),
{
    let n = before.len() as int;
    let p = m.ptr->0 as int;
    lemma_offset_mono(before, q, r);
    lemma_offset_mono(before, r, n);
    lemma_offset_mono(before, p, n);
    lemma_offset_nonneg(before, q);
    lemma_offset_after_delete(before, after, q, r, p);
    if p <= q {
        lemma_offset_mono(before, p, q);
    } else if p <= r {
        lemma_offset_mono(before, q, p);
        lemma_offset_mono(before, p, r);
    } else {
        lemma_offset_mono(before, r, p);
    }
}

/// Deleting the items `q..r` removes the positions they took at the
/// position of item `q`; adjusting consistent markers for that change, as
/// `update_marker_changes` does, leaves them consistent with the list after
/// the deletion, and within the machine's integers.
pub proof fn lemma_delete_keeps_markers_consistent(
    ms: Seq<SearchMarker>,
    before: Seq<ItemInfo>,
    after: Seq<ItemInfo>,
    q: int,
    r: int,
)
    requires
        markers_consistent(ms, before),
        deletes_items(before, after, q, r),
        offset(before, before.len() as int) <= i64::MAX,
    ensures
        ({
            let index = offset(before, q) as u64;
            let len = (offset(before, q) - offset(before, r)) as i64;
            &&& forall|i: int| 0 <= i < ms.len() ==> adjust_safe(#[trigger] ms[i], after, index, len)
            &&& markers_consistent(adjusted_markers(ms, after, index, len), after)
        }),
{
    let index = offset(before, q) as u64;
    let len = (offset(before, q) - offset(before, r)) as i64;
    assert forall|i: int| 0 <= i < ms.len() implies adjust_safe(#[trigger] ms[i], after, index, len)
        && marker_consistent(adjusted(ms[i], after, index, len), after) by {
        assert(marker_consistent(ms[i], before));
        lemma_delete_marker(ms[i], before, after, q, r);
    }
    let out = adjusted_markers(ms, after, index, len);
    let f = lemma_adjusted_markers_subsequence(ms, after, index, len);
    assert forall|k: int| 0 <= k < out.len() implies #[trigger] marker_consistent(out[k], after) by {
        assert(0 <= f[k] < ms.len());
        assert(out[k] == adjusted(ms[f[k]], after, index, len));
        assert(marker_consistent(adjusted(ms[f[k]], after, index, len), after));
    }
}

/// The positions before item `p` of two lists one after the other.
proof fn lemma_offset_concat(s1: Seq<ItemInfo>, s2: Seq<ItemInfo>, p: int)
    requires
        0 <= p <= s1.len() + s2.len(),
    ensures
        offset(s1 + s2, p) == if p <= s1.len() {
            offset(s1, p)
        } else {
            offset(s1, s1.len() as int) + offset(s2, p - s1.len())
        },
    decreases p,
{
    if p > 0 {
        lemma_offset_concat(s1, s2, p - 1);
        let s = s1 + s2;
        if p <= s1.len() {
            assert(s[p - 1] == s1[p - 1]);
        } else {
            assert(s[p - 1] == s2[p - 1 - s1.len()]);
            assert(offset(s2, p - s1.len()) == offset(s2, p - 1 - s1.len()) + item_width(
                s2[p - 1 - s1.len()],
            ));
            assert(offset(s2, 0) == 0);
        }
    }
}

/// `new_items` placed in the list `before` at item `k`.
pub open spec fn inserted_items(before: Seq<ItemInfo>, new_items: Seq<ItemInfo>, k: int) -> Seq<
    ItemInfo,
> {
    before.take(k) + new_items + before.skip(k)
}

/// A marker once `c` items were placed at item `k`: it keeps pointing at
/// the same item, which now stands `c` places further on when it was at or
/// after `k`.
pub open spec fn renumbered(m: SearchMarker, k: int, c: int) -> SearchMarker {
    if m.ptr is Some && m.ptr->0 >= k {
        SearchMarker { ptr: Some((m.ptr->0 + c) as usize), index: m.index }
    } else {
        m
    }
}

/// Inserting items that take `len > 0` positions at item `k` adds them at
/// the position of item `k`; adjusting markers that sit on counted items of
/// positive length, as `update_marker_changes` does for that change, leaves
/// them consistent with the list after the insertion, and within the
/// machine's integers.
pub proof fn lemma_insert_keeps_markers_consistent(
    ms: Seq<SearchMarker>,
    before: Seq<ItemInfo>,
    new_items: Seq<ItemInfo>,
    k: int,
)
    requires
        markers_consistent(ms, before),
        forall|i: int|
            0 <= i < ms.len() && ((#[trigger] ms[i]).ptr->0 as int) < before.len() ==> before[ms[i].ptr->0 as int].indexable
                && before[ms[i].ptr->0 as int].len > 0,
        0 <= k <= before.len(),
        offset(new_items, new_items.len() as int) > 0,
        offset(before, before.len() as int) + offset(new_items, new_items.len() as int) <= i64::MAX,
        before.len() + new_items.len() <= usize::MAX,
    ensures
        ({
            let after = inserted_items(before, new_items, k);
            let rs = ms.map_values(|m: SearchMarker| renumbered(m, k, new_items.len() as int));
            let index = offset(before, k) as u64;
            let len = offset(new_items, new_items.len() as int) as i64;
            &&& forall|i: int| 0 <= i < rs.len() ==> adjust_safe(#[trigger] rs[i], after, index, len)
            &&& markers_consistent(adjusted_markers(rs, after, index, len), after)
        }),
{
    let c = new_items.len() as int;
    let w = offset(new_items, c);
    let after = inserted_items(before, new_items, k);
    let rs = ms.map_values(|m: SearchMarker| renumbered(m, k, c));
    let index = offset(before, k) as u64;
    let len = w as i64;
    let a = before.take(k);
    let b = before.skip(k);
    assert(before == a + b);
    assert(after == (a + new_items) + b);
    lemma_offset_nonneg(before, k);
    lemma_offset_mono(before, k, before.len() as int);
    lemma_offset_nonneg(new_items, c);
    lemma_offset_concat(a, b, k);
    lemma_offset_concat(a, new_items, k + c);
    assert forall|i: int| 0 <= i < rs.len() implies adjust_safe(#[trigger] rs[i], after, index, len)
        && marker_consistent(adjusted(rs[i], after, index, len), after) by {
        let m = ms[i];
        assert(marker_consistent(m, before));
        let p = m.ptr->0 as int;
        assert(before[p].indexable && before[p].len > 0);
        lemma_offset_concat(a, b, p);
        lemma_offset_mono(before, p, before.len() as int);
        lemma_offset_nonneg(before, p);
        if p < k {
            lemma_offset_mono(before, p + 1, k);
            lemma_offset_concat(a, b, p + 1);
            lemma_offset_concat(a + new_items, b, p);
            lemma_offset_concat(a, new_items, p);
            assert(after[p] == before[p]);
            assert(offset(after, p) == offset(before, p));
            assert(offset(before, p + 1) == offset(before, p) + item_width(before[p]));
            assert(m.index < index);
            assert(rs[i] == m);
            assert(settle_counted(after, p, m.index as int) == (p, m.index as int));
            assert(settled_first(m, after, len) == m);
        } else {
            lemma_offset_mono(before, k, p);
            lemma_offset_concat(a + new_items, b, p + c);
            assert(after[p + c] == before[p]);
            assert(offset(b, 0) == 0);
            assert(offset(new_items, 0) == 0);
            assert(c > 0);
            assert(offset(a + new_items, k + c) == offset(before, k) + w);
            assert(offset(before, p) == offset(a, k) + offset(b, p - k));
            assert(offset(after, p + c) == offset(before, p) + w);
            assert(index <= m.index);
            let m2 = SearchMarker { ptr: Some((p + c) as usize), index: m.index };
            assert(rs[i] == m2);
            assert(settle_counted(after, p + c, m.index as int) == (p + c, m.index as int));
            assert(settled_first(m2, after, len) == m2);
        }
    }
    let out = adjusted_markers(rs, after, index, len);
    let f = lemma_adjusted_markers_subsequence(rs, after, index, len);
    assert forall|j: int| 0 <= j < out.len() implies #[trigger] marker_consistent(out[j], after) by {
        assert(0 <= f[j] < rs.len());
        assert(out[j] == adjusted(rs[f[j]], after, index, len));
        assert(marker_consistent(adjusted(rs[f[j]], after, index, len), after));
    }
}

// ---------------------------------------------------------------------------
// Executable code
// ---------------------------------------------------------------------------

impl SearchMarker {
    fn new(ptr: Option<usize>, index: u64) -> (m: Self)
        ensures
            m == (SearchMarker { ptr, index }),
    {
        SearchMarker { ptr, index }
    }

    fn overwrite_marker(&mut self, ptr: Option<usize>, index: u64)
        ensures
            *final(self) == (SearchMarker { ptr, index }),
    {
        self.ptr = ptr;
        self.index = index;
    }
}

/// The markers of a list type, oldest first.
#[derive(Debug)]
pub struct MarkerList {
    list: VecDeque<SearchMarker>,
}

impl View for MarkerList {
    type V = Seq<SearchMarker>;

    closed spec fn view(&self) -> Seq<SearchMarker> {
        self.list@
    }
}

impl Default for MarkerList {
    /// No markers.
    fn default() -> (r: Self)
        ensures
            r@ == Seq::<SearchMarker>::empty(),
    {
        Self::new()
    }
}

impl MarkerList {
    /// No markers.
    pub fn new() -> (r: Self)
        ensures
            r@ == Seq::<SearchMarker>::empty(),
    {
        MarkerList { list: VecDeque::new() }
    }

    /// Records a marker for item `ptr` at position `index` and returns it.
    fn mark_position(list: &mut VecDeque<SearchMarker>, ptr: Option<usize>, index: u64) -> (r:
        Option<SearchMarker>)
        ensures
            final(list)@ == pushed_marker(old(list)@, SearchMarker { ptr, index }),
            r == Some(SearchMarker { ptr, index }),
    {
        if list.len() >= MAX_SEARCH_MARKER {
            let mut oldest_marker = list.pop_front().unwrap();
            oldest_marker.overwrite_marker(ptr, index);
            list.push_back(oldest_marker);
        } else {
            let marker = SearchMarker::new(ptr, index);
            list.push_back(marker);
        }
        let last = list[list.len() - 1];
        Some(last)
    }

    /// The most recently recorded marker.
    pub fn get_last_marker(&self) -> (r: Option<SearchMarker>)
        ensures
            r == if self@.len() > 0 {
                Some(self@.last())
            } else {
                None::<SearchMarker>
            },
    {
        if self.list.len() > 0 {
            Some(self.list[self.list.len() - 1])
        } else {
            None
        }
    }

    /// The first marker closest to `index`.
    fn closest_marker(&self, index: u64) -> (r: Option<usize>)
        ensures
            r matches Some(b) ==> b as int == closest(self@, index, self@.len() as int),
            r is None ==> self@.len() == 0,
    {
        let n = self.list.len();
        let mut best: Option<usize> = None;
        let mut best_dist: u64 = 0;
        let mut i: usize = 0;
        while i < n
            invariant
                n == self@.len(),
                i <= n,
                best matches Some(b) ==> b as int == closest(self@, index, i as int) && b < i
                    && best_dist == distance(self@[b as int], index),
                best is None ==> i == 0,
            decreases n - i,
        {
            let m = self.list[i];
            let d = if m.index >= index {
                m.index - index
            } else {
                index - m.index
            };
            let ghost prev = closest(self@, index, i as int);
            assert(d == distance(self@[i as int], index));
            match best {
                None => {
                    best = Some(i);
                    best_dist = d;
                    assert(closest(self@, index, i + 1) == i);
                },
                Some(b) => {
                    if d < best_dist {
                        best = Some(i);
                        best_dist = d;
                        assert(closest(self@, index, i + 1) == i);
                    } else {
                        assert(closest(self@, index, i + 1) == b);
                    }
                },
            }
            i += 1;
        }
        best
    }
    /// Finds a marker near position `index` of the list `parent`: the
    /// search starts from the closest marker (or from the list's first item),
    /// walks to the item that holds `index`, steps back to an item that
    /// starts at or before it, then over items that could be merged with
    /// their right neighbour; a marker whose item is not in the list stays
    /// where it is. The closest marker is moved there when it moves by less
    /// than an eightieth of the list's length; otherwise a new marker is
    /// recorded, reusing the oldest one when 80 are kept. Nothing is found in
    /// an empty list or at position 0.
    pub fn find_marker(&mut self, parent: &ListItems, index: u64) -> (r: Option<SearchMarker>)
        requires
            parent.items@.len() > 0 && index > 0 ==> search_safe(old(self)@, parent.items@, index),
        ensures
            parent.items@.len() == 0 || index == 0 ==> r is None && final(self)@ == old(self)@,
            parent.items@.len() > 0 && index > 0 ==> {
                let b = closest(old(self)@, index, old(self)@.len() as int);
                let found = settled_marker(old(self)@, parent.items@, index);
                &&& r == Some(found)
                &&& reuses_marker(old(self)@, b, found, parent.len) ==> final(self)@ == old(
                    self,
                )@.update(b, found)
                &&& !reuses_marker(old(self)@, b, found, parent.len) ==> final(self)@
                    == pushed_marker(old(self)@, found)
            },
            old(self)@.len() <= MAX_SEARCH_MARKER ==> final(self)@.len() <= MAX_SEARCH_MARKER,
            parent.items@.len() > 0 && index > 0 && old(self)@.len() > 0 ==> {
                let b = closest(old(self)@, index, old(self)@.len() as int);
                let found = r->0;
                &&& 0 <= b < old(self)@.len()
                &&& forall|j: int|
                    0 <= j < old(self)@.len() ==> distance(old(self)@[b], index) <= #[trigger] distance(
                        old(self)@[j],
                        index,
                    )
                &&& forall|j: int|
                    0 <= j < b ==> distance(old(self)@[b], index) < #[trigger] distance(
                        old(self)@[j],
                        index,
                    )
                &&& 80 * distance(old(self)@[b], found.index) < parent.len ==> final(self)@ == old(
                    self,
                )@.update(b, found)
                &&& 80 * distance(old(self)@[b], found.index) >= parent.len && old(self)@.len() < 80
                    ==> final(self)@ == old(self)@.push(found)
                &&& 80 * distance(old(self)@[b], found.index) >= parent.len && old(self)@.len() >= 80
                    ==> final(self)@ == old(self)@.drop_first().push(found)
            },
            parent.items@.len() > 0 && index > 0 && old(self)@.len() == 0 ==> final(self)@ == seq![
                r->0,
            ],
            parent.wf() && markers_consistent(old(self)@, parent.items@) ==> {
                &&& markers_consistent(final(self)@, parent.items@)
                &&& r matches Some(m) ==> marker_consistent(m, parent.items@) && m.index <= index
            },
            parent.wf() && markers_consistent(old(self)@, parent.items@) && parent.items@.len() > 0
                && index > 0 ==> {
                let items = parent.items@;
                &&& r is Some && r->0.ptr is Some
                &&& r->0.ptr->0 == 0 || !(items[r->0.ptr->0 - 1].client == items[r->0.ptr->0 as int].client
                    && items[r->0.ptr->0 - 1].clock + items[r->0.ptr->0 - 1].len == items[r->0.ptr->0 as int].clock)
                &&& exists|l: int|
                    r->0.ptr->0 <= l < items.len() && #[trigger] offset(items, l) <= index && (index
                        < offset(items, l + 1) || offset(items, l) == index || l == items.len() - 1)
                        && forall|i: int|
                        r->0.ptr->0 < i <= l ==> (#[trigger] items[i - 1]).client == items[i].client
                            && items[i - 1].clock + items[i - 1].len == items[i].clock
            },
    {
        let items = &parent.items;
        let n = items.len();
        if n == 0 || index == 0 {
            return None;
        }
        let ghost ms = self@;
        let ghost its = items@;
        let best = self.closest_marker(index);
        proof {
            lemma_closest_range(ms, index, ms.len() as int);
            if ms.len() > 0 {
                lemma_closest_is_nearest(ms, index, ms.len() as int);
            }
        }
        let (ptr, mut mi): (Option<usize>, u64) = match best {
            Some(b) => {
                let m = self.list[b];
                (m.ptr, m.index)
            },
            None => (Some(0), 0),
        };
        let ghost target = search_result(ms, its, index);
        assert(settle(its, ptr, mi as int, index as int) == target);
        let found_ptr = match ptr {
            None => None,
            Some(p0) => {
                let mut p = p0;
                let ghost tr = walk_right(its, p0 as int, mi as int, index as int);
                let ghost tl = walk_left(its, tr.0, tr.1, index as int);
                let ghost tm = walk_merge(its, tl.0, tl.1);
                assert(tr.2 && tl.2 && tm.2);
                // iterate to the right if possible
                loop
                    invariant
                        n == its.len(),
                        items@ == its,
                        walk_right(its, p as int, mi as int, index as int) == tr,
                        tr.2,
                    ensures
                        tr == (p as int, mi as int, true),
                    decreases n - p,
                {
                    if !(p < n && p + 1 < n) || mi >= index {
                        break;
                    }
                    if items[p].indexable {
                        let w = items[p].len;
                        assert(mi + w <= u64::MAX);
                        if index < mi + w {
                            break;
                        }
                        mi = mi + w;
                    }
                    p = p + 1;
                }
                // iterate to the left if necessary
                loop
                    invariant
                        n == its.len(),
                        items@ == its,
                        walk_left(its, p as int, mi as int, index as int) == tl,
                        tl.2,
                    ensures
                        tl == (p as int, mi as int, true),
                    decreases p,
                {
                    if p == 0 || p >= n || mi <= index {
                        break;
                    }
                    let left = items[p - 1];
                    if left.indexable {
                        mi = mi - left.len;
                    }
                    p = p - 1;
                }
                // step back over items that could be merged with their right neighbour
                loop
                    invariant
                        n == its.len(),
                        items@ == its,
                        walk_merge(its, p as int, mi as int) == tm,
                        tm.2,
                    ensures
                        tm == (p as int, mi as int, true),
                    decreases p,
                {
                    if p == 0 || p >= n {
                        break;
                    }
                    let left = items[p - 1];
                    let item = items[p];
                    if !(left.client == item.client && left.len <= u64::MAX - left.clock
                        && left.clock + left.len == item.clock) {
                        break;
                    }
                    if left.indexable {
                        mi = mi - left.len;
                    }
                    p = p - 1;
                }
                Some(p)
            },
        };
        let found = SearchMarker { ptr: found_ptr, index: mi };
        assert(found == settled_marker(ms, its, index));
        proof {
            if parent.wf() && markers_consistent(ms, its) {
                lemma_consistent_search(ms, *parent, index);
                lemma_search_lands_at_index(ms, *parent, index);
            }
        }
        match best {
            Some(b) => {
                let m = self.list[b];
                let d = if m.index >= mi {
                    m.index - mi
                } else {
                    mi - m.index
                };
                if (d as u128) * 80 < (parent.len as u128) {
                    let ghost old_list = self.list@;
                    self.list.remove(b);
                    self.list.insert(b, found);
                    proof {
                        assert(self.list@ =~= old_list.update(b as int, found));
                        if parent.wf() && markers_consistent(ms, its) {
                            assert forall|i: int| 0 <= i < self@.len() implies #[trigger] marker_consistent(
                                self@[i],
                                its,
                            ) by {
                                if i != b {
                                    assert(self@[i] == ms[i]);
                                }
                            }
                        }
                    }
                    return Some(found);
                }
            },
            None => {},
        }
        let r = Self::mark_position(&mut self.list, found_ptr, mi);
        proof {
            if parent.wf() && markers_consistent(ms, its) {
                assert forall|i: int| 0 <= i < self@.len() implies #[trigger] marker_consistent(
                    self@[i],
                    its,
                ) by {
                    if ms.len() >= MAX_SEARCH_MARKER {
                        if i < self@.len() - 1 {
                            assert(self@[i] == ms[i + 1]);
                        }
                    } else {
                        if i < self@.len() - 1 {
                            assert(self@[i] == ms[i]);
                        }
                    }
                }
            }
        }
        r
    }
}


/// `m` after a change of `len` positions at `index`.
fn adjust_marker(m: SearchMarker, items: &Vec<ItemInfo>, index: u64, len: i64) -> (r: SearchMarker)
    requires
        adjust_safe(m, items@, index, len),
    ensures
        r == adjusted(m, items@, index, len),
{
    let mut marker = m;
    if len > 0 {
        if let Some(start) = m.ptr {
            let n = items.len();
            let mut p = start;
            let mut idx = m.index;
            let ghost target = settle_counted(items@, start as int, m.index as int);
            proof {
                lemma_settle_counted_bounds(items@, start as int, m.index as int);
            }
            while p < n && !items[p].indexable
                invariant
                    n == items@.len(),
                    settle_counted(items@, p as int, idx as int) == target,
                    settle_safe(items@, p as int, idx as int),
                ensures
                    target == (p as int, idx as int),
                decreases p,
            {
                if p > 0 {
                    let left = items[p - 1];
                    if left.indexable {
                        idx = idx - left.len;
                    }
                    p = p - 1;
                } else {
                    idx = 0;
                    break;
                }
            }
            assert(target == (p as int, idx as int));
            marker = SearchMarker { ptr: Some(p), index: idx };
            assert(marker == settled_first(m, items@, len));
        }
    }
    proof {
        if len > 0 && m.ptr is Some {
            lemma_settle_counted_bounds(items@, m.ptr->0 as int, m.index as int);
        }
    }
    if marker.ptr.is_some() && (index < marker.index || (len > 0 && index == marker.index)) {
        let shifted = marker.index as i64 + len;
        let target = if (index as i64) >= shifted {
            index as i64
        } else {
            shifted
        };
        marker.index = target as u64;
    }
    marker
}

fn same_ptr(a: Option<usize>, b: Option<usize>) -> (r: bool)
    ensures
        r == (a == b),
{
    match (a, b) {
        (Some(x), Some(y)) => x == y,
        (None, None) => true,
        _ => false,
    }
}

impl MarkerList {
    /// Adjusts the markers after `len` positions were added (or, when
    /// negative, removed) at position `index` of the list `parent`, and drops
    /// the markers left at position 0.
    pub fn update_marker_changes(&mut self, parent: &ListItems, index: u64, len: i64)
        requires
            forall|i: int|
                0 <= i < old(self)@.len() ==> adjust_safe(
                    #[trigger] old(self)@[i],
                    parent.items@,
                    index,
                    len,
                ),
        ensures
            final(self)@ == adjusted_markers(old(self)@, parent.items@, index, len),
            final(self)@.len() <= old(self)@.len(),
            exists|f: Seq<int>|
                keeps_in_order(final(self)@, old(self)@, f, parent.items@, index, len),
            forall|k: int| 0 <= k < final(self)@.len() ==> (#[trigger] final(self)@[k]).index > 0,
            forall|i: int|
                0 <= i < old(self)@.len() && len > 0 && (#[trigger] old(self)@[i]).ptr is Some && (
                old(self)@[i].ptr->0 as int) < parent.items@.len()
                    && parent.items@[old(self)@[i].ptr->0 as int].indexable && old(self)@[i].index
                    >= index && old(self)@[i].index + len <= i64::MAX ==> final(self)@.contains(
                    SearchMarker { ptr: old(self)@[i].ptr, index: (old(self)@[i].index + len) as u64 },
                ),
            forall|i: int|
                0 <= i < old(self)@.len() && len > 0 && (#[trigger] old(self)@[i]).ptr is Some && (
                old(self)@[i].ptr->0 as int) < parent.items@.len()
                    && parent.items@[old(self)@[i].ptr->0 as int].indexable && 0 < old(self)@[i].index
                    < index ==> final(self)@.contains(old(self)@[i]),
            forall|i: int|
                0 <= i < old(self)@.len() && len <= 0 && (#[trigger] old(self)@[i]).ptr is Some && 0
                    < index < old(self)@[i].index <= i64::MAX ==> final(self)@.contains(
                    SearchMarker {
                        ptr: old(self)@[i].ptr,
                        index: (if old(self)@[i].index + len >= index {
                            old(self)@[i].index + len
                        } else {
                            index as int
                        }) as u64,
                    },
                ),
            forall|i: int|
                0 <= i < old(self)@.len() && len <= 0 && 0 < (#[trigger] old(self)@[i]).index
                    <= index ==> final(self)@.contains(old(self)@[i]),
    {
        let ghost ms = self@;
        let n = self.list.len();
        let mut out: VecDeque<SearchMarker> = VecDeque::new();
        let mut i: usize = 0;
        while i < n
            invariant
                n == ms.len(),
                self@ == ms,
                i <= n,
                forall|k: int| 0 <= k < ms.len() ==> adjust_safe(#[trigger] ms[k], parent.items@, index, len),
                out@ == adjusted_markers(ms.take(i as int), parent.items@, index, len),
            decreases n - i,
        {
            let m = self.list[i];
            assert(ms[i as int] == m);
            let a = adjust_marker(m, &parent.items, index, len);
            if a.index > 0 {
                out.push_back(a);
            }
            proof {
                let t = ms.take(i + 1);
                assert(t.drop_last() =~= ms.take(i as int));
                assert(t.last() == m);
            }
            i += 1;
        }
        proof {
            assert(ms.take(n as int) =~= ms);
            lemma_adjusted_markers_len(ms, parent.items@, index, len);
            let f = lemma_adjusted_markers_subsequence(ms, parent.items@, index, len);
            let its = parent.items@;
            assert forall|i: int|
                0 <= i < ms.len() && len > 0 && (#[trigger] ms[i]).ptr is Some && (ms[i].ptr->0 as int)
                    < its.len() && its[ms[i].ptr->0 as int].indexable && ms[i].index >= index
                    && ms[i].index + len <= i64::MAX implies out@.contains(
                SearchMarker { ptr: ms[i].ptr, index: (ms[i].index + len) as u64 },
            ) by {
                lemma_adjusted_shift(ms[i], its, index, len);
                lemma_adjusted_markers_contains(ms, its, index, len, i);
            }
            assert forall|i: int|
                0 <= i < ms.len() && len > 0 && (#[trigger] ms[i]).ptr is Some && (ms[i].ptr->0 as int)
                    < its.len() && its[ms[i].ptr->0 as int].indexable && 0 < ms[i].index < index
                implies out@.contains(ms[i]) by {
                lemma_adjusted_shift(ms[i], its, index, len);
                lemma_adjusted_markers_contains(ms, its, index, len, i);
            }
            assert forall|i: int|
                0 <= i < ms.len() && len <= 0 && (#[trigger] ms[i]).ptr is Some && 0 < index
                    < ms[i].index <= i64::MAX implies out@.contains(
                SearchMarker {
                    ptr: ms[i].ptr,
                    index: (if ms[i].index + len >= index {
                        ms[i].index + len
                    } else {
                        index as int
                    }) as u64,
                },
            ) by {
                lemma_adjusted_shift(ms[i], its, index, len);
                lemma_adjusted_markers_contains(ms, its, index, len, i);
            }
            assert forall|i: int|
                0 <= i < ms.len() && len <= 0 && 0 < (#[trigger] ms[i]).index <= index implies out@.contains(
                ms[i],
            ) by {
                lemma_adjusted_shift(ms[i], its, index, len);
                lemma_adjusted_markers_contains(ms, its, index, len, i);
            }
        }
        self.list = out;
    }

    /// Points the markers on item `raw` to item `new`, shifting their
    /// positions by `len_shift`.
    pub fn replace_marker(&mut self, raw: Option<usize>, new: Option<usize>, len_shift: i64)
        requires
            forall|i: int|
                0 <= i < old(self)@.len() && (#[trigger] old(self)@[i]).ptr == raw ==> i64::MIN <= (
                old(self)@[i].index as i64) + len_shift <= i64::MAX,
        ensures
            final(self)@.len() == old(self)@.len(),
            forall|i: int|
                0 <= i < old(self)@.len() ==> #[trigger] final(self)@[i] == replaced(
                    old(self)@[i],
                    raw,
                    new,
                    len_shift,
                ),
            forall|i: int|
                0 <= i < old(self)@.len() && old(self)@[i].ptr == raw ==> (#[trigger] final(self)@[i]).ptr == new,
            forall|i: int|
                0 <= i < old(self)@.len() && old(self)@[i].ptr == raw && old(self)@[i].index
                    <= i64::MAX && old(self)@[i].index + len_shift >= 0 ==> (#[trigger] final(self)@[i]).index == old(self)@[i].index + len_shift,
            forall|i: int|
                0 <= i < old(self)@.len() && old(self)@[i].ptr != raw ==> #[trigger] final(self)@[i]
                    == old(self)@[i],
    {
        let ghost ms = self@;
        let n = self.list.len();
        let mut out: VecDeque<SearchMarker> = VecDeque::new();
        let mut i: usize = 0;
        while i < n
            invariant
                n == ms.len(),
                self@ == ms,
                i <= n,
                forall|k: int|
                    0 <= k < ms.len() && (#[trigger] ms[k]).ptr == raw ==> i64::MIN <= (
                    ms[k].index as i64) + len_shift <= i64::MAX,
                out@.len() == i,
                forall|k: int| 0 <= k < i ==> #[trigger] out@[k] == replaced(ms[k], raw, new, len_shift),
            decreases n - i,
        {
            let m = self.list[i];
            assert(ms[i as int] == m);
            if same_ptr(m.ptr, raw) {
                let shifted = (m.index as i64) + len_shift;
                out.push_back(SearchMarker { ptr: new, index: shifted as u64 });
            } else {
                out.push_back(m);
            }
            i += 1;
        }
        proof {
            assert forall|k: int|
                0 <= k < ms.len() && ms[k].ptr == raw && ms[k].index <= i64::MAX && ms[k].index
                    + len_shift >= 0 implies #[trigger] out@[k].index == ms[k].index + len_shift by {
                lemma_shift_cast(ms[k].index, len_shift);
            }
        }
        self.list = out;
    }
}

/// A position up to `i64::MAX` moved by `shift` through `i64` and back to
/// `u64` is the sum, when that is not negative.
proof fn lemma_shift_cast(x: u64, shift: i64)
    requires
        x <= i64::MAX,
        x + shift >= 0,
    ensures
        (((x as i64) + shift) as u64) as int == x + shift,
{
}

} // verus!
