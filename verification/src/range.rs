use std::collections::VecDeque;
use std::ops::Range;
use vstd::prelude::*;

verus! {

// ---------------------------------------------------------------------------
// Mathematical model of ranges of clocks
// ---------------------------------------------------------------------------

/// `x` lies in the half-open span `[r.start, r.end)`.
pub open spec fn in_span(r: Range<u64>, x: u64) -> bool {
    r.start <= x && x < r.end
}

/// `a` and `b` overlap or touch, so that their union is a single span.
pub open spec fn continuous(a: Range<u64>, b: Range<u64>) -> bool {
    a.end >= b.start && a.start <= b.end
}

/// The smallest range that holds both `a` and `b`.
pub open spec fn hull(a: Range<u64>, b: Range<u64>) -> Range<u64> {
    Range {
        start: if a.start <= b.start { a.start } else { b.start },
        end: if a.end >= b.end { a.end } else { b.end },
    }
}

/// Some range of `s` holds `x`.
pub open spec fn seq_covers(s: Seq<Range<u64>>, x: u64) -> bool {
    exists|i: int| 0 <= i < s.len() && #[trigger] in_span(s[i], x)
}

/// Every range of `s` is well formed (`start <= end`), and each range ends
/// strictly before the next one starts: the ranges are sorted, pairwise
/// disjoint and never touch.
pub open spec fn ordered(s: Seq<Range<u64>>) -> bool {
    &&& forall|i: int| 0 <= i < s.len() ==> (#[trigger] s[i]).start <= s[i].end
    &&& forall|i: int, j: int| 0 <= i < j < s.len() ==> (#[trigger] s[i]).end < (#[trigger] s[j]).start
}

/// Every range of `s` is well formed and the ranges are sorted by their start.
pub open spec fn sorted_by_start(s: Seq<Range<u64>>) -> bool {
    &&& forall|i: int| 0 <= i < s.len() ==> (#[trigger] s[i]).start <= s[i].end
    &&& forall|i: int, j: int| 0 <= i < j < s.len() ==> (#[trigger] s[i]).start <= (#[trigger] s[j]).start
}

/// The ranges `s` after `r` has been added: ranges that end before `r`
/// starts are kept, the ranges that overlap or touch `r` are merged with it
/// into one, and `r` is placed before the first range that starts after it.
pub open spec fn insert_merged(s: Seq<Range<u64>>, r: Range<u64>) -> Seq<Range<u64>>
    decreases s.len(),
{
    if s.len() == 0 {
        seq![r]
    } else if s[0].end < r.start {
        seq![s[0]] + insert_merged(s.drop_first(), r)
    } else if s[0].start > r.end {
        seq![r] + s
    } else {
        insert_merged(s.drop_first(), hull(s[0], r))
    }
}

/// The first position in `lo..hi` from which the ranges of `s` end at or
/// after `start`, as a binary search over `lo..hi` finds it.
pub open spec fn lower_bound(s: Seq<Range<u64>>, start: u64, lo: int, hi: int) -> int
    decreases hi - lo,
{
    if lo >= hi {
        lo
    } else {
        let mid = lo + (hi - lo) / 2;
        if s[mid].end < start {
            lower_bound(s, start, mid + 1, hi)
        } else {
            lower_bound(s, start, lo, mid)
        }
    }
}

/// The ranges of `s` from position `j` on that overlap or touch `cur`, one
/// after the other, merged into it: the position after them and the merged
/// range.
pub open spec fn merge_run(s: Seq<Range<u64>>, j: int, cur: Range<u64>) -> (int, Range<u64>)
    decreases s.len() - j,
{
    if 0 <= j < s.len() && continuous(s[j], cur) {
        merge_run(s, j + 1, hull(s[j], cur))
    } else {
        (j, cur)
    }
}

/// The ranges `s` after `r` has been added in place: a binary search finds
/// the first range that does not end before `r` starts, the ranges from there
/// on that overlap or touch `r` are merged with it, and the merged range takes
/// their place. On ordered ranges this is [`insert_merged`].
pub open spec fn merged_at(s: Seq<Range<u64>>, r: Range<u64>) -> Seq<Range<u64>> {
    let lo = lower_bound(s, r.start, 0, s.len() as int);
    let run = merge_run(s, lo, r);
    s.take(lo) + seq![run.1] + s.skip(run.0)
}

/// `acc` after each range of `rs` has been added in turn with [`merged_at`].
pub open spec fn insert_all(acc: Seq<Range<u64>>, rs: Seq<Range<u64>>) -> Seq<Range<u64>>
    decreases rs.len(),
{
    if rs.len() == 0 {
        acc
    } else {
        insert_all(merged_at(acc, rs[0]), rs.drop_first())
    }
}

/// The ranges `cur` followed by `rest`, where each range is merged into its
/// predecessor when the two overlap or touch.
pub open spec fn squashed(cur: Range<u64>, rest: Seq<Range<u64>>) -> Seq<Range<u64>>
    decreases rest.len(),
{
    if rest.len() == 0 {
        seq![cur]
    } else if continuous(cur, rest[0]) {
        squashed(hull(cur, rest[0]), rest.drop_first())
    } else {
        seq![cur] + squashed(rest[0], rest.drop_first())
    }
}

/// `a` lies inside `b`.
pub open spec fn inside(a: Range<u64>, b: Range<u64>) -> bool {
    b.start <= a.start && a.end <= b.end
}

/// The walk that checks that the old ranges are covered by the new ones:
/// each old range, in order, must lie inside the current new range or one
/// after it. An empty list of new ranges accepts anything.
pub open spec fn covered_in_order(old: Seq<Range<u64>>, new: Seq<Range<u64>>) -> bool
    decreases old.len() + new.len(),
{
    if old.len() == 0 || new.len() == 0 {
        true
    } else if inside(old[0], new[0]) {
        covered_in_order(old.drop_first(), new)
    } else if new.len() > 1 {
        covered_in_order(old, new.drop_first())
    } else {
        false
    }
}

/// How many ranges at the front of `old` start at or before `end`.
pub open spec fn lead_count(old: Seq<Range<u64>>, end: u64) -> nat
    decreases old.len(),
{
    if old.len() == 0 || old[0].start > end {
        0
    } else {
        1 + lead_count(old.drop_first(), end)
    }
}

/// The gaps between the ranges `ov` that follow position `last`, and the gap
/// from the end of the last of them to `end`.
pub open spec fn gap_walk(last: u64, ov: Seq<Range<u64>>, end: u64) -> Seq<Range<u64>>
    decreases ov.len(),
{
    if ov.len() == 0 {
        if end > last {
            seq![Range { start: last, end: end }]
        } else {
            seq![]
        }
    } else {
        (if ov[0].start > last {
            seq![Range { start: last, end: ov[0].start }]
        } else {
            seq![]
        }) + gap_walk(ov[0].end, ov.drop_first(), end)
    }
}

/// The parts of the new range `n` that the old ranges `ov` leave uncovered.
pub open spec fn gaps(n: Range<u64>, ov: Seq<Range<u64>>) -> Seq<Range<u64>> {
    if ov.len() == 0 {
        seq![n]
    } else {
        (if ov[0].start > n.start {
            seq![Range { start: n.start, end: ov[0].start }]
        } else {
            seq![]
        }) + gap_walk(ov[0].start, ov, n.end)
    }
}

/// The uncovered parts of each new range in turn, where each new range is
/// compared with the old ranges that start at or before its end and that no
/// earlier new range took.
pub open spec fn diff_walk(old: Seq<Range<u64>>, new: Seq<Range<u64>>) -> Seq<Range<u64>>
    decreases new.len(),
{
    if new.len() == 0 {
        seq![]
    } else {
        let k = lead_count(old, new[0].end) as int;
        gaps(new[0], old.take(k)) + diff_walk(old.skip(k), new.drop_first())
    }
}

/// What `diff_range` returns: nothing when the old ranges are not covered by
/// the new ones, the uncovered parts of the new ranges otherwise.
pub open spec fn range_diff(old: Seq<Range<u64>>, new: Seq<Range<u64>>) -> Seq<Range<u64>> {
    if covered_in_order(old, new) {
        diff_walk(old, new)
    } else {
        seq![]
    }
}

/// A set of clocks, kept as one range or as a list of ranges.
#[derive(Debug, PartialEq, Eq)]
pub enum OrderRange {
    Range(Range<u64>),
    Fragment(VecDeque<Range<u64>>),
}

impl OrderRange {
    /// The ranges held, in order.
    pub open spec fn ranges(&self) -> Seq<Range<u64>> {
        match self {
            OrderRange::Range(r) => seq![*r],
            OrderRange::Fragment(d) => d@,
        }
    }

    /// The value is the single-range variant.
    pub open spec fn is_single(&self) -> bool {
        self is Range
    }

    /// The clock `x` lies in one of the ranges.
    pub open spec fn covers(&self, x: u64) -> bool {
        seq_covers(self.ranges(), x)
    }

    /// The ranges are sorted, well formed and never overlap or touch.
    pub open spec fn wf(&self) -> bool {
        ordered(self.ranges())
    }

    /// What `is_empty` answers: an empty single range, or no range at all.
    pub open spec fn spec_is_empty(&self) -> bool {
        match self {
            OrderRange::Range(r) => !(r.start < r.end),
            OrderRange::Fragment(d) => d@.len() == 0,
        }
    }

    /// The ranges that [`OrderRange::push`] leaves.
    pub open spec fn pushed_ranges(&self, range: Range<u64>) -> Seq<Range<u64>> {
        match self {
            OrderRange::Range(r) => if r.start == r.end {
                seq![range]
            } else if continuous(*r, range) {
                seq![hull(*r, range)]
            } else if r.start < range.start {
                seq![*r, range]
            } else {
                seq![range, *r]
            },
            OrderRange::Fragment(d) => if d@.len() == 0 {
                seq![range]
            } else {
                merged_at(d@, range)
            },
        }
    }

    /// The ranges that take part in a merge: an empty single range counts as none.
    pub open spec fn base_ranges(&self) -> Seq<Range<u64>> {
        match self {
            OrderRange::Range(r) => if r.start < r.end { seq![*r] } else { seq![] },
            OrderRange::Fragment(d) => d@,
        }
    }

    /// The ranges that [`OrderRange::squash`] leaves.
    pub open spec fn squashed_ranges(&self) -> Seq<Range<u64>> {
        match self {
            OrderRange::Range(r) => seq![*r],
            OrderRange::Fragment(d) => if d@.len() == 0 {
                seq![Range { start: 0, end: 0 }]
            } else {
                squashed(d@[0], d@.drop_first())
            },
        }
    }
}

// ---------------------------------------------------------------------------
// Lemmas on the model
// ---------------------------------------------------------------------------

/// The hull of two ranges that overlap or touch holds exactly their clocks.
pub proof fn lemma_hull_covers(a: Range<u64>, b: Range<u64>, x: u64)
    requires
        continuous(a, b),
    ensures
        in_span(hull(a, b), x) <==> (in_span(a, x) || in_span(b, x)),
{
}

proof fn lemma_covers_single(r: Range<u64>, x: u64)
    ensures
        seq_covers(seq![r], x) <==> in_span(r, x),
{
    if in_span(r, x) {
        assert(seq![r][0] == r);
    }
}

proof fn lemma_covers_concat(a: Seq<Range<u64>>, b: Seq<Range<u64>>, x: u64)
    ensures
        seq_covers(a + b, x) <==> (seq_covers(a, x) || seq_covers(b, x)),
{
    let s = a + b;
    if seq_covers(s, x) {
        let i = choose|i: int| 0 <= i < s.len() && #[trigger] in_span(s[i], x);
        if i < a.len() {
            assert(in_span(a[i], x));
        } else {
            assert(in_span(b[i - a.len()], x));
        }
    }
    if seq_covers(a, x) {
        let i = choose|i: int| 0 <= i < a.len() && #[trigger] in_span(a[i], x);
        assert(s[i] == a[i]);
    }
    if seq_covers(b, x) {
        let i = choose|i: int| 0 <= i < b.len() && #[trigger] in_span(b[i], x);
        assert(s[i + a.len()] == b[i]);
    }
}

proof fn lemma_covers_first(s: Seq<Range<u64>>, x: u64)
    requires
        s.len() > 0,
    ensures
        seq_covers(s, x) <==> (in_span(s[0], x) || seq_covers(s.drop_first(), x)),
{
    assert(s =~= seq![s[0]] + s.drop_first());
    lemma_covers_concat(seq![s[0]], s.drop_first(), x);
    lemma_covers_single(s[0], x);
}

/// Adding a range with [`insert_merged`] adds exactly its clocks.
pub proof fn lemma_insert_merged_covers(s: Seq<Range<u64>>, r: Range<u64>, x: u64)
    ensures
        seq_covers(insert_merged(s, r), x) <==> (seq_covers(s, x) || in_span(r, x)),
    decreases s.len(),
{
    if s.len() == 0 {
        lemma_covers_single(r, x);
    } else {
        lemma_covers_first(s, x);
        if s[0].end < r.start {
            lemma_insert_merged_covers(s.drop_first(), r, x);
            lemma_covers_concat(seq![s[0]], insert_merged(s.drop_first(), r), x);
            lemma_covers_single(s[0], x);
        } else if s[0].start > r.end {
            lemma_covers_concat(seq![r], s, x);
            lemma_covers_single(r, x);
        } else {
            lemma_hull_covers(s[0], r, x);
            lemma_insert_merged_covers(s.drop_first(), hull(s[0], r), x);
        }
    }
}

/// Every range that [`insert_merged`] leaves starts after `b` when `r` and
/// all ranges of `s` do.
proof fn lemma_insert_merged_lower(s: Seq<Range<u64>>, r: Range<u64>, b: int)
    requires
        r.start > b,
        forall|i: int| 0 <= i < s.len() ==> (#[trigger] s[i]).start > b,
    ensures
        forall|i: int|
            0 <= i < insert_merged(s, r).len() ==> (#[trigger] insert_merged(s, r)[i]).start > b,
    decreases s.len(),
{
    if s.len() == 0 {
    } else if s[0].end < r.start {
        let t = s.drop_first();
        lemma_insert_merged_lower(t, r, b);
        let m = insert_merged(t, r);
        assert forall|i: int| 0 <= i < insert_merged(s, r).len() implies (#[trigger] insert_merged(
            s,
            r,
        )[i]).start > b by {
            if i > 0 {
                assert(insert_merged(s, r)[i] == m[i - 1]);
            }
        }
    } else if s[0].start > r.end {
        assert forall|i: int| 0 <= i < insert_merged(s, r).len() implies (#[trigger] insert_merged(
            s,
            r,
        )[i]).start > b by {
            if i > 0 {
                assert(insert_merged(s, r)[i] == s[i - 1]);
            }
        }
    } else {
        let t = s.drop_first();
        assert forall|i: int| 0 <= i < t.len() implies (#[trigger] t[i]).start > b by {
            assert(t[i] == s[i + 1]);
        }
        lemma_insert_merged_lower(t, hull(s[0], r), b);
    }
}

proof fn lemma_ordered_drop_first(s: Seq<Range<u64>>)
    requires
        ordered(s),
        s.len() > 0,
    ensures
        ordered(s.drop_first()),
{
    let t = s.drop_first();
    assert forall|i: int, j: int| 0 <= i < j < t.len() implies (#[trigger] t[i]).end < (
    #[trigger] t[j]).start by {
        assert(t[i] == s[i + 1] && t[j] == s[j + 1]);
    }
    assert forall|i: int| 0 <= i < t.len() implies (#[trigger] t[i]).start <= t[i].end by {
        assert(t[i] == s[i + 1]);
    }
}

/// Adding a well-formed range with [`insert_merged`] keeps ranges ordered.
pub proof fn lemma_insert_merged_ordered(s: Seq<Range<u64>>, r: Range<u64>)
    requires
        ordered(s),
        r.start <= r.end,
    ensures
        ordered(insert_merged(s, r)),
    decreases s.len(),
{
    if s.len() == 0 {
    } else {
        let t = s.drop_first();
        lemma_ordered_drop_first(s);
        if s[0].end < r.start {
            lemma_insert_merged_ordered(t, r);
            let m = insert_merged(t, r);
            assert forall|i: int| 0 <= i < t.len() implies (#[trigger] t[i]).start > s[0].end by {
                assert(t[i] == s[i + 1]);
            }
            lemma_insert_merged_lower(t, r, s[0].end as int);
            let res = insert_merged(s, r);
            assert(res == seq![s[0]] + m);
            assert forall|i: int, j: int| 0 <= i < j < res.len() implies (#[trigger] res[i]).end < (
            #[trigger] res[j]).start by {
                assert(res[j] == m[j - 1]);
                if i > 0 {
                    assert(res[i] == m[i - 1]);
                }
            }
            assert forall|i: int| 0 <= i < res.len() implies (#[trigger] res[i]).start <= res[i].end by {
                if i > 0 {
                    assert(res[i] == m[i - 1]);
                }
            }
        } else if s[0].start > r.end {
            let res = insert_merged(s, r);
            assert(res == seq![r] + s);
            assert forall|i: int, j: int| 0 <= i < j < res.len() implies (#[trigger] res[i]).end < (
            #[trigger] res[j]).start by {
                assert(res[j] == s[j - 1]);
                if i > 0 {
                    assert(res[i] == s[i - 1]);
                } else {
                    assert(s[0].start <= s[j - 1].start);
                }
            }
            assert forall|i: int| 0 <= i < res.len() implies (#[trigger] res[i]).start <= res[i].end by {
                if i > 0 {
                    assert(res[i] == s[i - 1]);
                }
            }
        } else {
            lemma_insert_merged_ordered(t, hull(s[0], r));
        }
    }
}

/// A range of `insert_merged` holds clocks when `r` and every range of `s` do.
pub proof fn lemma_insert_merged_nonempty(s: Seq<Range<u64>>, r: Range<u64>)
    requires
        nonempty_ranges(s),
        r.start < r.end,
    ensures
        nonempty_ranges(insert_merged(s, r)),
    decreases s.len(),
{
    if s.len() > 0 {
        let t = s.drop_first();
        lemma_nonempty_subrange(s, 1, s.len() as int);
        assert(t == s.subrange(1, s.len() as int));
        assert(s[0].start < s[0].end);
        if s[0].end < r.start {
            lemma_insert_merged_nonempty(t, r);
            let m = insert_merged(t, r);
            let res = insert_merged(s, r);
            assert(res == seq![s[0]] + m);
            assert forall|i: int| 0 <= i < res.len() implies (#[trigger] res[i]).start < res[i].end by {
                if i > 0 {
                    assert(res[i] == m[i - 1]);
                }
            }
        } else if s[0].start > r.end {
            let res = insert_merged(s, r);
            assert(res == seq![r] + s);
            assert forall|i: int| 0 <= i < res.len() implies (#[trigger] res[i]).start < res[i].end by {
                if i > 0 {
                    assert(res[i] == s[i - 1]);
                }
            }
        } else {
            lemma_insert_merged_nonempty(t, hull(s[0], r));
        }
    }
}

proof fn lemma_lower_bound(s: Seq<Range<u64>>, start: u64, lo: int, hi: int)
    requires
        0 <= lo <= hi <= s.len(),
        forall|i: int, j: int| 0 <= i < j < s.len() ==> (#[trigger] s[i]).end <= (#[trigger] s[j]).end,
        forall|i: int| 0 <= i < lo ==> (#[trigger] s[i]).end < start,
        forall|i: int| hi <= i < s.len() ==> (#[trigger] s[i]).end >= start,
    ensures
        lo <= lower_bound(s, start, lo, hi) <= hi,
        forall|i: int| 0 <= i < lower_bound(s, start, lo, hi) ==> (#[trigger] s[i]).end < start,
        forall|i: int| lower_bound(s, start, lo, hi) <= i < s.len() ==> (#[trigger] s[i]).end >= start,
    decreases hi - lo,
{
    if lo < hi {
        let mid = lo + (hi - lo) / 2;
        if s[mid].end < start {
            assert forall|i: int| 0 <= i < mid + 1 implies (#[trigger] s[i]).end < start by {
                if i < mid {
                    assert(s[i].end <= s[mid].end);
                }
            }
            lemma_lower_bound(s, start, mid + 1, hi);
        } else {
            assert forall|i: int| mid <= i < s.len() implies (#[trigger] s[i]).end >= start by {
                if i > mid {
                    assert(s[mid].end <= s[i].end);
                }
            }
            lemma_lower_bound(s, start, lo, mid);
        }
    }
}

proof fn lemma_lower_bound_range(s: Seq<Range<u64>>, start: u64, lo: int, hi: int)
    requires
        0 <= lo <= hi,
    ensures
        lo <= lower_bound(s, start, lo, hi) <= hi,
    decreases hi - lo,
{
    if lo < hi {
        let mid = lo + (hi - lo) / 2;
        if s[mid].end < start {
            lemma_lower_bound_range(s, start, mid + 1, hi);
        } else {
            lemma_lower_bound_range(s, start, lo, mid);
        }
    }
}

/// The merged range of a run holds exactly the clocks of `cur` and of the
/// ranges that the run takes.
proof fn lemma_merge_run_covers(s: Seq<Range<u64>>, j: int, cur: Range<u64>, x: u64)
    requires
        0 <= j <= s.len(),
    ensures
        j <= merge_run(s, j, cur).0 <= s.len(),
        in_span(merge_run(s, j, cur).1, x) <==> (in_span(cur, x) || seq_covers(
            s.subrange(j, merge_run(s, j, cur).0),
            x,
        )),
    decreases s.len() - j,
{
    if 0 <= j < s.len() && continuous(s[j], cur) {
        lemma_merge_run_covers(s, j + 1, hull(s[j], cur), x);
        let e = merge_run(s, j, cur).0;
        lemma_hull_covers(s[j], cur, x);
        let sub = s.subrange(j, e);
        assert(sub.drop_first() =~= s.subrange(j + 1, e));
        assert(sub[0] == s[j]);
        lemma_covers_first(sub, x);
    } else {
        assert(s.subrange(j, j) =~= Seq::<Range<u64>>::empty());
    }
}

/// Adding a range in place adds exactly its clocks.
pub proof fn lemma_merged_at_covers(s: Seq<Range<u64>>, r: Range<u64>, x: u64)
    ensures
        seq_covers(merged_at(s, r), x) <==> (seq_covers(s, x) || in_span(r, x)),
{
    let lo = lower_bound(s, r.start, 0, s.len() as int);
    lemma_lower_bound_range(s, r.start, 0, s.len() as int);
    lemma_merge_run_covers(s, lo, r, x);
    let run = merge_run(s, lo, r);
    let a = s.take(lo);
    let m = s.subrange(lo, run.0);
    let b = s.skip(run.0);
    assert(s =~= a + m + b);
    lemma_covers_concat(a + m, b, x);
    lemma_covers_concat(a, m, x);
    lemma_covers_concat(a + seq![run.1], b, x);
    lemma_covers_concat(a, seq![run.1], x);
    lemma_covers_single(run.1, x);
}

proof fn lemma_insert_merged_prefix(s: Seq<Range<u64>>, r: Range<u64>, k: int)
    requires
        0 <= k <= s.len(),
        forall|i: int| 0 <= i < k ==> (#[trigger] s[i]).end < r.start,
    ensures
        insert_merged(s, r) == s.take(k) + insert_merged(s.skip(k), r),
    decreases k,
{
    if k > 0 {
        let t = s.drop_first();
        assert forall|i: int| 0 <= i < k - 1 implies (#[trigger] t[i]).end < r.start by {
            assert(t[i] == s[i + 1]);
        }
        lemma_insert_merged_prefix(t, r, k - 1);
        assert(t.skip(k - 1) =~= s.skip(k));
        assert(s.take(k) =~= seq![s[0]] + t.take(k - 1));
        assert(s[0].end < r.start);
    } else {
        assert(s.skip(0) =~= s);
        assert(s.take(0) + insert_merged(s, r) =~= insert_merged(s, r));
    }
}

proof fn lemma_merge_run_insert(s: Seq<Range<u64>>, j: int, cur: Range<u64>)
    requires
        ordered(s),
        0 <= j <= s.len(),
        j < s.len() ==> s[j].end >= cur.start,
    ensures
        insert_merged(s.skip(j), cur) == seq![merge_run(s, j, cur).1] + s.skip(merge_run(s, j, cur).0),
    decreases s.len() - j,
{
    let t = s.skip(j);
    if j == s.len() {
        assert(t =~= Seq::<Range<u64>>::empty());
    } else {
        assert(t[0] == s[j]);
        assert(t.drop_first() =~= s.skip(j + 1));
        if continuous(s[j], cur) {
            if j + 1 < s.len() {
                assert(s[j].end < s[j + 1].start);
            }
            lemma_merge_run_insert(s, j + 1, hull(s[j], cur));
        }
    }
}

/// On ordered ranges, adding a range in place gives [`insert_merged`].
pub proof fn lemma_merged_at_is_insert_merged(s: Seq<Range<u64>>, r: Range<u64>)
    requires
        ordered(s),
    ensures
        merged_at(s, r) == insert_merged(s, r),
{
    assert forall|i: int, j: int| 0 <= i < j < s.len() implies (#[trigger] s[i]).end <= (
    #[trigger] s[j]).end by {
        assert(s[i].end < s[j].start);
    }
    lemma_lower_bound(s, r.start, 0, s.len() as int);
    let lo = lower_bound(s, r.start, 0, s.len() as int);
    lemma_insert_merged_prefix(s, r, lo);
    lemma_merge_run_insert(s, lo, r);
    let run = merge_run(s, lo, r);
    assert(s.take(lo) + (seq![run.1] + s.skip(run.0)) =~= s.take(lo) + seq![run.1] + s.skip(run.0));
}

/// Adding several ranges in turn adds exactly their clocks.
pub proof fn lemma_insert_all_covers(acc: Seq<Range<u64>>, rs: Seq<Range<u64>>, x: u64)
    ensures
        seq_covers(insert_all(acc, rs), x) <==> (seq_covers(acc, x) || seq_covers(rs, x)),
    decreases rs.len(),
{
    if rs.len() > 0 {
        lemma_merged_at_covers(acc, rs[0], x);
        lemma_insert_all_covers(merged_at(acc, rs[0]), rs.drop_first(), x);
        lemma_covers_first(rs, x);
    }
}

/// Adding several well-formed ranges in turn keeps ranges ordered.
pub proof fn lemma_insert_all_ordered(acc: Seq<Range<u64>>, rs: Seq<Range<u64>>)
    requires
        ordered(acc),
        forall|i: int| 0 <= i < rs.len() ==> (#[trigger] rs[i]).start <= rs[i].end,
    ensures
        ordered(insert_all(acc, rs)),
    decreases rs.len(),
{
    if rs.len() > 0 {
        lemma_merged_at_is_insert_merged(acc, rs[0]);
        lemma_insert_merged_ordered(acc, rs[0]);
        let t = rs.drop_first();
        assert forall|i: int| 0 <= i < t.len() implies (#[trigger] t[i]).start <= t[i].end by {
            assert(t[i] == rs[i + 1]);
        }
        lemma_insert_all_ordered(merged_at(acc, rs[0]), t);
    }
}

/// Squashing keeps exactly the clocks of the ranges.
pub proof fn lemma_squashed_covers(cur: Range<u64>, rest: Seq<Range<u64>>, x: u64)
    ensures
        seq_covers(squashed(cur, rest), x) <==> (in_span(cur, x) || seq_covers(rest, x)),
    decreases rest.len(),
{
    if rest.len() == 0 {
        lemma_covers_single(cur, x);
    } else {
        lemma_covers_first(rest, x);
        if continuous(cur, rest[0]) {
            lemma_hull_covers(cur, rest[0], x);
            lemma_squashed_covers(hull(cur, rest[0]), rest.drop_first(), x);
        } else {
            lemma_squashed_covers(rest[0], rest.drop_first(), x);
            lemma_covers_concat(seq![cur], squashed(rest[0], rest.drop_first()), x);
            lemma_covers_single(cur, x);
        }
    }
}

proof fn lemma_pushed_covers(o: OrderRange, range: Range<u64>, x: u64)
    ensures
        seq_covers(o.pushed_ranges(range), x) <==> (o.covers(x) || in_span(range, x)),
{
    match o {
        OrderRange::Range(r) => {
            lemma_covers_single(r, x);
            lemma_covers_single(range, x);
            if r.start == r.end {
            } else if continuous(r, range) {
                lemma_hull_covers(r, range, x);
                lemma_covers_single(hull(r, range), x);
            } else if r.start < range.start {
                assert(seq![r, range] =~= seq![r] + seq![range]);
                lemma_covers_concat(seq![r], seq![range], x);
            } else {
                assert(seq![range, r] =~= seq![range] + seq![r]);
                lemma_covers_concat(seq![range], seq![r], x);
            }
        },
        OrderRange::Fragment(d) => {
            lemma_covers_single(range, x);
            if d@.len() > 0 {
                lemma_merged_at_covers(d@, range, x);
            }
        },
    }
}

proof fn lemma_pushed_ordered(o: OrderRange, range: Range<u64>)
    requires
        o.wf(),
        range.start <= range.end,
    ensures
        ordered(o.pushed_ranges(range)),
{
    match o {
        OrderRange::Range(r) => {
            assert(seq![r][0] == r);
            let p = o.pushed_ranges(range);
            if r.start == r.end {
                assert(p[0] == range);
            } else if continuous(r, range) {
                assert(p[0] == hull(r, range));
            } else if r.start < range.start {
                assert(p[0] == r && p[1] == range);
            } else {
                assert(p[0] == range && p[1] == r);
            }
        },
        OrderRange::Fragment(d) => {
            if d@.len() > 0 {
                lemma_merged_at_is_insert_merged(d@, range);
                lemma_insert_merged_ordered(d@, range);
            } else {
                assert(o.pushed_ranges(range)[0] == range);
            }
        },
    }
}

proof fn lemma_pushed_nonempty(o: OrderRange, range: Range<u64>)
    requires
        o.wf(),
        nonempty_ranges(o.ranges()),
        range.start < range.end,
    ensures
        nonempty_ranges(o.pushed_ranges(range)),
{
    let p = o.pushed_ranges(range);
    match o {
        OrderRange::Range(r) => {
            assert(seq![r][0] == r);
            if r.start == r.end {
            } else if continuous(r, range) {
                assert(p[0] == hull(r, range));
            } else if r.start < range.start {
                assert(p[0] == r && p[1] == range);
            } else {
                assert(p[0] == range && p[1] == r);
            }
        },
        OrderRange::Fragment(d) => {
            if d@.len() > 0 {
                lemma_merged_at_is_insert_merged(d@, range);
                lemma_insert_merged_nonempty(d@, range);
            } else {
                assert(p[0] == range);
            }
        },
    }
}

proof fn lemma_base_ranges_covers(o: OrderRange, x: u64)
    ensures
        seq_covers(o.base_ranges(), x) <==> o.covers(x),
{
    if let OrderRange::Range(r) = o {
        lemma_covers_single(r, x);
    }
}

proof fn lemma_base_ranges_ordered(o: OrderRange)
    requires
        o.wf(),
    ensures
        ordered(o.base_ranges()),
{
    if let OrderRange::Range(r) = o {
        assert(seq![r][0] == r);
    }
}

/// Squashing ranges sorted by their start gives ordered ranges, all of which
/// start at or after `cur`.
proof fn lemma_squashed_sorted(cur: Range<u64>, rest: Seq<Range<u64>>)
    requires
        cur.start <= cur.end,
        sorted_by_start(rest),
        forall|j: int| 0 <= j < rest.len() ==> cur.start <= (#[trigger] rest[j]).start,
    ensures
        ordered(squashed(cur, rest)),
        forall|i: int|
            0 <= i < squashed(cur, rest).len() ==> (#[trigger] squashed(cur, rest)[i]).start
                >= cur.start,
    decreases rest.len(),
{
    if rest.len() == 0 {
        assert(squashed(cur, rest)[0] == cur);
    } else {
        let t = rest.drop_first();
        assert forall|i: int, j: int| 0 <= i < j < t.len() implies (#[trigger] t[i]).start <= (
        #[trigger] t[j]).start by {
            assert(t[i] == rest[i + 1] && t[j] == rest[j + 1]);
        }
        assert forall|i: int| 0 <= i < t.len() implies (#[trigger] t[i]).start <= t[i].end by {
            assert(t[i] == rest[i + 1]);
        }
        assert forall|j: int| 0 <= j < t.len() implies rest[0].start <= (#[trigger] t[j]).start by {
            assert(t[j] == rest[j + 1]);
        }
        if continuous(cur, rest[0]) {
            lemma_squashed_sorted(hull(cur, rest[0]), t);
        } else {
            lemma_squashed_sorted(rest[0], t);
            let m = squashed(rest[0], t);
            let res = squashed(cur, rest);
            assert(res == seq![cur] + m);
            assert forall|i: int, j: int| 0 <= i < j < res.len() implies (#[trigger] res[i]).end < (
            #[trigger] res[j]).start by {
                assert(res[j] == m[j - 1]);
                if i > 0 {
                    assert(res[i] == m[i - 1]);
                }
            }
            assert forall|i: int| 0 <= i < res.len() implies (#[trigger] res[i]).start <= res[i].end by {
                if i > 0 {
                    assert(res[i] == m[i - 1]);
                }
            }
            assert forall|i: int| 0 <= i < res.len() implies (#[trigger] res[i]).start >= cur.start by {
                if i > 0 {
                    assert(res[i] == m[i - 1]);
                }
            }
        }
    }
}

/// Squashing ordered ranges changes nothing.
proof fn lemma_squashed_identity(cur: Range<u64>, rest: Seq<Range<u64>>)
    requires
        ordered(seq![cur] + rest),
    ensures
        squashed(cur, rest) == seq![cur] + rest,
    decreases rest.len(),
{
    let all = seq![cur] + rest;
    if rest.len() == 0 {
        assert(all =~= seq![cur]);
    } else {
        assert(all[0] == cur && all[1] == rest[0]);
        lemma_ordered_drop_first(all);
        assert(all.drop_first() =~= seq![rest[0]] + rest.drop_first());
        lemma_squashed_identity(rest[0], rest.drop_first());
        assert(seq![cur] + (seq![rest[0]] + rest.drop_first()) =~= all);
    }
}

proof fn lemma_squashed_ranges_covers(o: OrderRange, x: u64)
    ensures
        seq_covers(o.squashed_ranges(), x) <==> o.covers(x),
{
    if let OrderRange::Fragment(d) = o {
        if d@.len() == 0 {
            lemma_covers_single(Range { start: 0, end: 0 }, x);
        } else {
            lemma_squashed_covers(d@[0], d@.drop_first(), x);
            lemma_covers_first(d@, x);
        }
    }
}

proof fn lemma_squashed_ranges_ordered_identity(o: OrderRange)
    requires
        o.wf(),
        o.ranges().len() > 0,
    ensures
        o.squashed_ranges() == o.ranges(),
{
    if let OrderRange::Fragment(d) = o {
        assert(d@ =~= seq![d@[0]] + d@.drop_first());
        lemma_squashed_identity(d@[0], d@.drop_first());
    }
}

proof fn lemma_squashed_ranges_sorted(o: OrderRange)
    requires
        sorted_by_start(o.ranges()),
    ensures
        ordered(o.squashed_ranges()),
{
    match o {
        OrderRange::Range(r) => {
            assert(seq![r][0] == r);
        },
        OrderRange::Fragment(d) => {
            if d@.len() == 0 {
                assert(o.squashed_ranges()[0] == Range { start: 0u64, end: 0u64 });
            } else {
                let t = d@.drop_first();
                assert forall|i: int, j: int| 0 <= i < j < t.len() implies (#[trigger] t[i]).start
                    <= (#[trigger] t[j]).start by {
                    assert(t[i] == d@[i + 1] && t[j] == d@[j + 1]);
                }
                assert forall|i: int| 0 <= i < t.len() implies (#[trigger] t[i]).start <= t[i].end by {
                    assert(t[i] == d@[i + 1]);
                }
                assert forall|j: int| 0 <= j < t.len() implies d@[0].start <= (
                #[trigger] t[j]).start by {
                    assert(t[j] == d@[j + 1]);
                }
                assert(d@[0].start <= d@[0].end);
                lemma_squashed_sorted(d@[0], t);
            }
        },
    }
}

/// The range `r` lies inside some range of `n`.
pub open spec fn inside_some(r: Range<u64>, n: Seq<Range<u64>>) -> bool {
    exists|j: int| 0 <= j < n.len() && #[trigger] inside(r, n[j])
}

/// Each range of `o` lies inside some range of `n`.
pub open spec fn each_inside(o: Seq<Range<u64>>, n: Seq<Range<u64>>) -> bool {
    forall|i: int| 0 <= i < o.len() ==> #[trigger] inside_some(o[i], n)
}

proof fn lemma_ordered_subrange(s: Seq<Range<u64>>, a: int, b: int)
    requires
        ordered(s),
        0 <= a <= b <= s.len(),
    ensures
        ordered(s.subrange(a, b)),
{
    let t = s.subrange(a, b);
    assert forall|i: int, j: int| 0 <= i < j < t.len() implies (#[trigger] t[i]).end < (
    #[trigger] t[j]).start by {
        assert(t[i] == s[i + a] && t[j] == s[j + a]);
    }
    assert forall|i: int| 0 <= i < t.len() implies (#[trigger] t[i]).start <= t[i].end by {
        assert(t[i] == s[i + a]);
    }
}

/// A clock before the start of the first of some ordered ranges lies in none of them.
proof fn lemma_covers_before_first(s: Seq<Range<u64>>, x: u64)
    requires
        ordered(s),
        s.len() > 0,
        x < s[0].start,
    ensures
        !seq_covers(s, x),
{
    if seq_covers(s, x) {
        let i = choose|i: int| 0 <= i < s.len() && #[trigger] in_span(s[i], x);
        if i > 0 {
            assert(s[0].end < s[i].start);
        }
    }
}

/// The greedy walk of `check_range_covered` succeeds on ordered ranges when
/// each old range lies inside some new range.
proof fn lemma_covered_in_order(o: Seq<Range<u64>>, n: Seq<Range<u64>>)
    requires
        ordered(o),
        ordered(n),
        each_inside(o, n),
    ensures
        covered_in_order(o, n),
    decreases o.len() + n.len(),
{
    if o.len() == 0 || n.len() == 0 {
    } else if inside(o[0], n[0]) {
        let t = o.drop_first();
        lemma_ordered_drop_first(o);
        assert forall|i: int| 0 <= i < t.len() implies #[trigger] inside_some(t[i], n) by {
            assert(t[i] == o[i + 1]);
            assert(inside_some(o[i + 1], n));
        }
        assert(each_inside(t, n));
        lemma_covered_in_order(t, n);
    } else {
        assert(inside_some(o[0], n));
        let m0 = choose|j: int| 0 <= j < n.len() && #[trigger] inside(o[0], n[j]);
        assert(m0 != 0);
        let u = n.drop_first();
        lemma_ordered_drop_first(n);
        assert forall|i: int| 0 <= i < o.len() implies #[trigger] inside_some(o[i], u) by {
            assert(inside_some(o[i], n));
            let m = choose|j: int| 0 <= j < n.len() && #[trigger] inside(o[i], n[j]);
            if m == 0 {
                if i > 0 {
                    assert(o[0].end < o[i].start);
                    assert(n[0].end < n[m0].start);
                }
                assert(false);
            }
            assert(u[m - 1] == n[m]);
            assert(inside(o[i], u[m - 1]));
        }
        lemma_covered_in_order(o, u);
    }
}

proof fn lemma_lead_count(o: Seq<Range<u64>>, end: u64)
    requires
        ordered(o),
    ensures
        lead_count(o, end) <= o.len(),
        forall|i: int| 0 <= i < lead_count(o, end) ==> (#[trigger] o[i]).start <= end,
        forall|i: int| lead_count(o, end) <= i < o.len() ==> (#[trigger] o[i]).start > end,
    decreases o.len(),
{
    if o.len() == 0 {
    } else if o[0].start > end {
        assert forall|i: int| 0 <= i < o.len() implies (#[trigger] o[i]).start > end by {
            if i > 0 {
                assert(o[0].end < o[i].start);
            }
        }
    } else {
        let t = o.drop_first();
        lemma_ordered_drop_first(o);
        lemma_lead_count(t, end);
        assert forall|i: int| 0 <= i < lead_count(o, end) implies (#[trigger] o[i]).start <= end by {
            if i > 0 {
                assert(o[i] == t[i - 1]);
            }
        }
        assert forall|i: int| lead_count(o, end) <= i < o.len() implies (#[trigger] o[i]).start
            > end by {
            assert(o[i] == t[i - 1]);
        }
    }
}

/// The gaps that the walk finds from `last` to `end` are the clocks of that
/// span that no range of `ov` holds.
proof fn lemma_gap_walk_covers(last: u64, ov: Seq<Range<u64>>, end: u64, x: u64)
    requires
        ordered(ov),
        ov.len() > 0 ==> last <= ov[0].start,
        forall|i: int| 0 <= i < ov.len() ==> (#[trigger] ov[i]).end <= end,
    ensures
        seq_covers(gap_walk(last, ov, end), x) <==> (last <= x < end && !seq_covers(ov, x)),
    decreases ov.len(),
{
    if ov.len() == 0 {
        if end > last {
            lemma_covers_single(Range { start: last, end: end }, x);
        }
    } else {
        let t = ov.drop_first();
        lemma_ordered_drop_first(ov);
        assert forall|i: int| 0 <= i < t.len() implies (#[trigger] t[i]).end <= end by {
            assert(t[i] == ov[i + 1]);
        }
        if t.len() > 0 {
            assert(ov[0].end < ov[1].start);
        }
        lemma_gap_walk_covers(ov[0].end, t, end, x);
        let piece: Seq<Range<u64>> = if ov[0].start > last {
            seq![Range { start: last, end: ov[0].start }]
        } else {
            seq![]
        };
        lemma_covers_concat(piece, gap_walk(ov[0].end, t, end), x);
        if ov[0].start > last {
            lemma_covers_single(Range { start: last, end: ov[0].start }, x);
        }
        lemma_covers_first(ov, x);
        if t.len() > 0 && x < t[0].start {
            lemma_covers_before_first(t, x);
        }
    }
}

/// The gaps that `diff_range` reports for one new range are the clocks of
/// that range that no old range inside it holds.
proof fn lemma_gaps_covers(n: Range<u64>, ov: Seq<Range<u64>>, x: u64)
    requires
        ordered(ov),
        forall|i: int| 0 <= i < ov.len() ==> inside(#[trigger] ov[i], n),
    ensures
        seq_covers(gaps(n, ov), x) <==> (in_span(n, x) && !seq_covers(ov, x)),
{
    if ov.len() == 0 {
        lemma_covers_single(n, x);
    } else {
        assert(inside(ov[0], n));
        lemma_gap_walk_covers(ov[0].start, ov, n.end, x);
        let front: Seq<Range<u64>> = if ov[0].start > n.start {
            seq![Range { start: n.start, end: ov[0].start }]
        } else {
            seq![]
        };
        lemma_covers_concat(front, gap_walk(ov[0].start, ov, n.end), x);
        if ov[0].start > n.start {
            lemma_covers_single(Range { start: n.start, end: ov[0].start }, x);
        }
        if x < ov[0].start {
            lemma_covers_before_first(ov, x);
        }
    }
}

/// The walk of `diff_range` reports exactly the clocks of the new ranges
/// that the old ranges do not hold.
proof fn lemma_diff_walk_covers(o: Seq<Range<u64>>, n: Seq<Range<u64>>, x: u64)
    requires
        ordered(o),
        ordered(n),
        each_inside(o, n),
    ensures
        seq_covers(diff_walk(o, n), x) <==> (seq_covers(n, x) && !seq_covers(o, x)),
    decreases n.len(),
{
    if n.len() == 0 {
        if o.len() > 0 {
            assert(inside_some(o[0], n));
        }
    } else {
        let n0 = n[0];
        let u = n.drop_first();
        lemma_ordered_drop_first(n);
        lemma_lead_count(o, n0.end);
        let k = lead_count(o, n0.end) as int;
        let ov = o.take(k);
        let rest = o.skip(k);
        lemma_ordered_subrange(o, 0, k);
        lemma_ordered_subrange(o, k, o.len() as int);
        assert(ov == o.subrange(0, k));
        assert(rest == o.subrange(k, o.len() as int));
        // the old ranges taken lie inside the first new range
        assert forall|i: int| 0 <= i < ov.len() implies inside(#[trigger] ov[i], n0) by {
            assert(ov[i] == o[i]);
            assert(inside_some(o[i], n));
            let m = choose|j: int| 0 <= j < n.len() && #[trigger] inside(o[i], n[j]);
            if m > 0 {
                assert(n0.end < n[m].start);
            }
        }
        // the others lie inside later new ranges
        assert forall|i: int| 0 <= i < rest.len() implies #[trigger] inside_some(rest[i], u) by {
            assert(rest[i] == o[i + k]);
            assert(inside_some(o[i + k], n));
            let m = choose|j: int| 0 <= j < n.len() && #[trigger] inside(o[i + k], n[j]);
            assert(m != 0);
            assert(u[m - 1] == n[m]);
            assert(inside(rest[i], u[m - 1]));
        }
        lemma_gaps_covers(n0, ov, x);
        lemma_diff_walk_covers(rest, u, x);
        lemma_covers_concat(gaps(n0, ov), diff_walk(rest, u), x);
        lemma_covers_first(n, x);
        assert(o =~= ov + rest);
        lemma_covers_concat(ov, rest, x);
        if in_span(n0, x) && seq_covers(rest, x) {
            let i = choose|i: int| 0 <= i < rest.len() && #[trigger] in_span(rest[i], x);
            assert(inside_some(rest[i], u));
            let m = choose|j: int| 0 <= j < u.len() && #[trigger] inside(rest[i], u[j]);
            assert(u[m] == n[m + 1]);
            assert(n0.end < n[m + 1].start);
        }
        if seq_covers(u, x) && seq_covers(ov, x) {
            let i = choose|i: int| 0 <= i < ov.len() && #[trigger] in_span(ov[i], x);
            let m = choose|j: int| 0 <= j < u.len() && #[trigger] in_span(u[j], x);
            assert(u[m] == n[m + 1]);
            assert(n0.end < n[m + 1].start);
            assert(inside(ov[i], n0));
        }
    }
}

/// When the ranges of `old` are ordered and each of them lies inside one of
/// the ordered ranges of `new`, `diff_range` reports exactly the clocks that
/// `new` holds and `old` does not.
pub proof fn lemma_diff_range_is_difference(old: OrderRange, new: OrderRange, x: u64)
    requires
        old.wf(),
        new.wf(),
        each_inside(old.ranges(), new.ranges()),
    ensures
        seq_covers(range_diff(old.ranges(), new.ranges()), x) <==> (new.covers(x) && !old.covers(x)),
{
    lemma_covered_in_order(old.ranges(), new.ranges());
    lemma_diff_walk_covers(old.ranges(), new.ranges(), x);
}

/// Every range of `s` holds at least one clock.
pub open spec fn nonempty_ranges(s: Seq<Range<u64>>) -> bool {
    forall|i: int| 0 <= i < s.len() ==> (#[trigger] s[i]).start < s[i].end
}

proof fn lemma_ordered_concat(a: Seq<Range<u64>>, b: Seq<Range<u64>>)
    requires
        ordered(a),
        ordered(b),
        forall|i: int, j: int| 0 <= i < a.len() && 0 <= j < b.len() ==> (#[trigger] a[i]).end < (
        #[trigger] b[j]).start,
    ensures
        ordered(a + b),
{
    let c = a + b;
    assert forall|i: int, j: int| 0 <= i < j < c.len() implies (#[trigger] c[i]).end < (
    #[trigger] c[j]).start by {
        if j < a.len() {
            assert(c[i] == a[i] && c[j] == a[j]);
        } else if i < a.len() {
            assert(c[i] == a[i] && c[j] == b[j - a.len()]);
        } else {
            assert(c[i] == b[i - a.len()] && c[j] == b[j - a.len()]);
        }
    }
    assert forall|i: int| 0 <= i < c.len() implies (#[trigger] c[i]).start <= c[i].end by {
        if i < a.len() {
            assert(c[i] == a[i]);
        } else {
            assert(c[i] == b[i - a.len()]);
        }
    }
}

proof fn lemma_nonempty_subrange(s: Seq<Range<u64>>, a: int, b: int)
    requires
        nonempty_ranges(s),
        0 <= a <= b <= s.len(),
    ensures
        nonempty_ranges(s.subrange(a, b)),
{
    let t = s.subrange(a, b);
    assert forall|i: int| 0 <= i < t.len() implies (#[trigger] t[i]).start < t[i].end by {
        assert(t[i] == s[i + a]);
    }
}

/// The gaps found from `last` to `end` are ordered, hold clocks, and lie
/// between `last` and `end`.
proof fn lemma_gap_walk_shape(last: u64, ov: Seq<Range<u64>>, end: u64)
    requires
        ordered(ov),
        nonempty_ranges(ov),
        ov.len() > 0 ==> last <= ov[0].start,
        forall|i: int| 0 <= i < ov.len() ==> (#[trigger] ov[i]).end <= end,
    ensures
        ordered(gap_walk(last, ov, end)),
        forall|i: int|
            0 <= i < gap_walk(last, ov, end).len() ==> last <= (#[trigger] gap_walk(last, ov, end)[i]).start
                && gap_walk(last, ov, end)[i].end <= end && gap_walk(last, ov, end)[i].start
                < gap_walk(last, ov, end)[i].end,
    decreases ov.len(),
{
    let g = gap_walk(last, ov, end);
    if ov.len() == 0 {
        if end > last {
            assert(g[0] == Range { start: last, end: end });
        }
    } else {
        let t = ov.drop_first();
        lemma_ordered_drop_first(ov);
        lemma_nonempty_subrange(ov, 1, ov.len() as int);
        assert(t == ov.subrange(1, ov.len() as int));
        assert forall|i: int| 0 <= i < t.len() implies (#[trigger] t[i]).end <= end by {
            assert(t[i] == ov[i + 1]);
        }
        if t.len() > 0 {
            assert(ov[0].end < ov[1].start);
        }
        assert(ov[0].start < ov[0].end);
        lemma_gap_walk_shape(ov[0].end, t, end);
        let rest = gap_walk(ov[0].end, t, end);
        let piece: Seq<Range<u64>> = if ov[0].start > last {
            seq![Range { start: last, end: ov[0].start }]
        } else {
            seq![]
        };
        assert(g == piece + rest);
        if ov[0].start > last {
            assert(piece[0] == Range { start: last, end: ov[0].start });
        }
        lemma_ordered_concat(piece, rest);
        assert forall|i: int| 0 <= i < g.len() implies last <= (#[trigger] g[i]).start && g[i].end
            <= end && g[i].start < g[i].end by {
            if i < piece.len() {
                assert(g[i] == piece[i]);
            } else {
                assert(g[i] == rest[i - piece.len()]);
            }
        }
    }
}

/// The gaps of one new range are ordered and lie inside it.
proof fn lemma_gaps_shape(n: Range<u64>, ov: Seq<Range<u64>>)
    requires
        ordered(ov),
        nonempty_ranges(ov),
        n.start <= n.end,
        forall|i: int| 0 <= i < ov.len() ==> inside(#[trigger] ov[i], n),
    ensures
        ordered(gaps(n, ov)),
        forall|i: int|
            0 <= i < gaps(n, ov).len() ==> n.start <= (#[trigger] gaps(n, ov)[i]).start
                && gaps(n, ov)[i].end <= n.end,
{
    let g = gaps(n, ov);
    if ov.len() == 0 {
        assert(g[0] == n);
    } else {
        assert(inside(ov[0], n));
        assert(ov[0].start < ov[0].end);
        let t = ov.drop_first();
        lemma_ordered_drop_first(ov);
        lemma_nonempty_subrange(ov, 1, ov.len() as int);
        assert(t == ov.subrange(1, ov.len() as int));
        assert forall|i: int| 0 <= i < t.len() implies (#[trigger] t[i]).end <= n.end by {
            assert(t[i] == ov[i + 1]);
            assert(inside(ov[i + 1], n));
        }
        if t.len() > 0 {
            assert(ov[0].end < ov[1].start);
        }
        lemma_gap_walk_shape(ov[0].end, t, n.end);
        let rest = gap_walk(ov[0].end, t, n.end);
        assert(gap_walk(ov[0].start, ov, n.end) =~= rest);
        let front: Seq<Range<u64>> = if ov[0].start > n.start {
            seq![Range { start: n.start, end: ov[0].start }]
        } else {
            seq![]
        };
        assert(g == front + rest);
        if ov[0].start > n.start {
            assert(front[0] == Range { start: n.start, end: ov[0].start });
        }
        lemma_ordered_concat(front, rest);
        assert forall|i: int| 0 <= i < g.len() implies n.start <= (#[trigger] g[i]).start && g[i].end
            <= n.end by {
            if i < front.len() {
                assert(g[i] == front[i]);
            } else {
                assert(g[i] == rest[i - front.len()]);
            }
        }
    }
}

/// The walk of `diff_range` reports ordered ranges when the old ranges are
/// ordered and hold clocks, and each lies inside one of the ordered new ranges.
proof fn lemma_diff_walk_shape(o: Seq<Range<u64>>, n: Seq<Range<u64>>)
    requires
        ordered(o),
        nonempty_ranges(o),
        ordered(n),
        each_inside(o, n),
    ensures
        ordered(diff_walk(o, n)),
        n.len() > 0 ==> forall|i: int|
            0 <= i < diff_walk(o, n).len() ==> n[0].start <= (#[trigger] diff_walk(o, n)[i]).start,
    decreases n.len(),
{
    if n.len() > 0 {
        let n0 = n[0];
        let u = n.drop_first();
        lemma_ordered_drop_first(n);
        lemma_lead_count(o, n0.end);
        let k = lead_count(o, n0.end) as int;
        let ov = o.take(k);
        let rest = o.skip(k);
        lemma_ordered_subrange(o, 0, k);
        lemma_ordered_subrange(o, k, o.len() as int);
        lemma_nonempty_subrange(o, 0, k);
        lemma_nonempty_subrange(o, k, o.len() as int);
        assert(ov == o.subrange(0, k));
        assert(rest == o.subrange(k, o.len() as int));
        assert forall|i: int| 0 <= i < ov.len() implies inside(#[trigger] ov[i], n0) by {
            assert(ov[i] == o[i]);
            assert(inside_some(o[i], n));
            let m = choose|j: int| 0 <= j < n.len() && #[trigger] inside(o[i], n[j]);
            if m > 0 {
                assert(n0.end < n[m].start);
            }
        }
        assert forall|i: int| 0 <= i < rest.len() implies #[trigger] inside_some(rest[i], u) by {
            assert(rest[i] == o[i + k]);
            assert(inside_some(o[i + k], n));
            let m = choose|j: int| 0 <= j < n.len() && #[trigger] inside(o[i + k], n[j]);
            assert(m != 0);
            assert(u[m - 1] == n[m]);
            assert(inside(rest[i], u[m - 1]));
        }
        assert(n0.start <= n0.end);
        lemma_gaps_shape(n0, ov);
        lemma_diff_walk_shape(rest, u);
        let g = gaps(n0, ov);
        let d = diff_walk(rest, u);
        assert(diff_walk(o, n) == g + d);
        if u.len() > 0 {
            assert(n0.end < n[1].start);
            assert(u[0] == n[1]);
        } else {
            assert(d.len() == 0);
        }
        lemma_ordered_concat(g, d);
        assert forall|i: int| 0 <= i < diff_walk(o, n).len() implies n[0].start <= (
        #[trigger] diff_walk(o, n)[i]).start by {
            if i < g.len() {
                assert(diff_walk(o, n)[i] == g[i]);
            } else {
                assert(diff_walk(o, n)[i] == d[i - g.len()]);
                assert(n[0].start <= n[0].end);
            }
        }
    }
}

/// When the ranges of `old` hold clocks, are ordered, and each lies inside
/// one of the ordered ranges of `new`, `diff_range` reports ordered ranges.
pub proof fn lemma_diff_range_ordered(old: OrderRange, new: OrderRange)
    requires
        old.wf(),
        new.wf(),
        nonempty_ranges(old.ranges()),
        each_inside(old.ranges(), new.ranges()),
    ensures
        ordered(range_diff(old.ranges(), new.ranges())),
{
    lemma_covered_in_order(old.ranges(), new.ranges());
    lemma_diff_walk_shape(old.ranges(), new.ranges());
}

/// When the walk of `check_range_covered` accepts the old ranges against a
/// non-empty list of new ranges, each old range lies inside some new range.
proof fn lemma_covered_each_inside(o: Seq<Range<u64>>, n: Seq<Range<u64>>)
    requires
        covered_in_order(o, n),
        n.len() > 0,
    ensures
        each_inside(o, n),
    decreases o.len() + n.len(),
{
    if o.len() == 0 {
    } else if inside(o[0], n[0]) {
        let t = o.drop_first();
        lemma_covered_each_inside(t, n);
        assert forall|i: int| 0 <= i < o.len() implies #[trigger] inside_some(o[i], n) by {
            if i == 0 {
                assert(inside(o[0], n[0]));
            } else {
                assert(o[i] == t[i - 1]);
                assert(inside_some(t[i - 1], n));
            }
        }
    } else {
        let u = n.drop_first();
        lemma_covered_each_inside(o, u);
        assert forall|i: int| 0 <= i < o.len() implies #[trigger] inside_some(o[i], n) by {
            assert(inside_some(o[i], u));
            let m = choose|j: int| 0 <= j < u.len() && #[trigger] inside(o[i], u[j]);
            assert(u[m] == n[m + 1]);
            assert(inside(o[i], n[m + 1]));
        }
    }
}

/// When some old range lies inside none of the new ranges, `diff_range`
/// reports nothing.
pub proof fn lemma_diff_range_uncovered_is_empty(old: OrderRange, new: OrderRange, i: int)
    requires
        0 <= i < old.ranges().len(),
        forall|j: int|
            0 <= j < new.ranges().len() ==> !(new.ranges()[j].start <= old.ranges()[i].start
                && old.ranges()[i].end <= new.ranges()[j].end),
    ensures
        range_diff(old.ranges(), new.ranges()).len() == 0,
{
    let o = old.ranges();
    let n = new.ranges();
    if covered_in_order(o, n) {
        if n.len() > 0 {
            lemma_covered_each_inside(o, n);
            assert(inside_some(o[i], n));
            let j = choose|j: int| 0 <= j < n.len() && #[trigger] inside(o[i], n[j]);
            assert(inside(o[i], n[j]));
        } else {
            assert(diff_walk(o, n) == Seq::<Range<u64>>::empty());
        }
    }
}

/// Of well-formed old and new ranges, every clock that `diff_range` reports
/// is held by the new ranges and not by the old ones.
pub proof fn lemma_diff_range_within_difference(old: OrderRange, new: OrderRange, x: u64)
    requires
        old.wf(),
        new.wf(),
    ensures
        seq_covers(range_diff(old.ranges(), new.ranges()), x) ==> new.covers(x) && !old.covers(x),
{
    let o = old.ranges();
    let n = new.ranges();
    if covered_in_order(o, n) {
        if n.len() > 0 {
            lemma_covered_each_inside(o, n);
            lemma_diff_walk_covers(o, n, x);
        } else {
            assert(diff_walk(o, n) == Seq::<Range<u64>>::empty());
        }
    }
}

// ---------------------------------------------------------------------------
// Executable code
// ---------------------------------------------------------------------------

/// A copy of the ranges of `src`, in order.
fn copy_deque(src: &VecDeque<Range<u64>>) -> (out: VecDeque<Range<u64>>)
    ensures
        out@ == src@,
{
    let mut out: VecDeque<Range<u64>> = VecDeque::new();
    let mut i: usize = 0;
    while i < src.len()
        invariant
            i <= src@.len(),
            out@ == src@.take(i as int),
        decreases src@.len() - i,
    {
        out.push_back(copy_range(&src[i]));
        i += 1;
        assert(out@ =~= src@.take(i as int));
    }
    assert(src@.take(i as int) =~= src@);
    out
}

impl Clone for OrderRange {
    /// A copy of the same variant with the same ranges.
    fn clone(&self) -> (c: Self)
        ensures
            c.ranges() == self.ranges(),
            c.is_single() == self.is_single(),
    {
        match self {
            OrderRange::Range(r) => OrderRange::Range(copy_range(r)),
            OrderRange::Fragment(d) => OrderRange::Fragment(copy_deque(d)),
        }
    }
}

fn copy_range(r: &Range<u64>) -> (c: Range<u64>)
    ensures
        c == *r,
{
    Range { start: r.start, end: r.end }
}

fn hull_of(a: &Range<u64>, b: &Range<u64>) -> (h: Range<u64>)
    ensures
        h == hull(*a, *b),
{
    let start = if a.start <= b.start { a.start } else { b.start };
    let end = if a.end >= b.end { a.end } else { b.end };
    Range { start, end }
}

/// Whether the two ranges overlap or touch.
fn is_continuous_range(lhs: &Range<u64>, rhs: &Range<u64>) -> (b: bool)
    ensures
        b == continuous(*lhs, *rhs),
        b == continuous(*rhs, *lhs),
        b ==> forall|x: u64| #[trigger]
            in_span(hull(*lhs, *rhs), x) <==> (in_span(*lhs, x) || in_span(*rhs, x)),
{
    proof {
        if continuous(*lhs, *rhs) {
            assert forall|x: u64| #[trigger]
                in_span(hull(*lhs, *rhs), x) <==> (in_span(*lhs, x) || in_span(*rhs, x)) by {
                lemma_hull_covers(*lhs, *rhs, x);
            }
        }
    }
    lhs.end >= rhs.start && lhs.start <= rhs.end
}

impl OrderRange {
    /// The number of ranges held; a single range counts as one, even when empty.
    pub fn ranges_len(&self) -> (n: usize)
        ensures
            n == self.ranges().len(),
    {
        match self {
            OrderRange::Range(_) => 1,
            OrderRange::Fragment(ranges) => ranges.len(),
        }
    }

    /// Whether no clock is held: an empty single range, or no range at all.
    pub fn is_empty(&self) -> (b: bool)
        ensures
            b == self.spec_is_empty(),
    {
        match self {
            OrderRange::Range(range) => !(range.start < range.end),
            OrderRange::Fragment(vec) => vec.len() == 0,
        }
    }

    /// Whether one of the ranges holds `clock`.
    pub fn contains(&self, clock: u64) -> (b: bool)
        ensures
            b == self.covers(clock),
    {
        match self {
            OrderRange::Range(range) => {
                proof {
                    lemma_covers_single(*range, clock);
                }
                range.start <= clock && clock < range.end
            },
            OrderRange::Fragment(ranges) => {
                let mut i: usize = 0;
                while i < ranges.len()
                    invariant
                        i <= ranges@.len(),
                        self.ranges() == ranges@,
                        forall|k: int| 0 <= k < i ==> !#[trigger] in_span(ranges@[k], clock),
                    decreases ranges@.len() - i,
                {
                    if ranges[i].start <= clock && clock < ranges[i].end {
                        assert(in_span(ranges@[i as int], clock));
                        return true;
                    }
                    i += 1;
                }
                false
            },
        }
    }
}


/// Adds `range` to the ranges `list`: a binary search finds the first range
/// that does not end before `range` starts, the ranges from there on that
/// overlap or touch `range` are merged with it, and the merged range takes
/// their place.
fn push_inner(list: &mut VecDeque<Range<u64>>, range: Range<u64>)
    ensures
        final(list)@ == merged_at(old(list)@, range),
        ordered(old(list)@) ==> final(list)@ == insert_merged(old(list)@, range),
        ordered(old(list)@) && range.start <= range.end ==> ordered(final(list)@),
        nonempty_ranges(old(list)@) && ordered(old(list)@) && range.start < range.end
            ==> nonempty_ranges(final(list)@),
        forall|x: u64| #[trigger]
            seq_covers(final(list)@, x) <==> (seq_covers(old(list)@, x) || in_span(range, x)),
{
    let ghost s = list@;
    let ghost rg = range;
    let n = list.len();
    let mut lo: usize = 0;
    let mut hi: usize = n;
    while lo < hi
        invariant
            n == s.len(),
            list@ == s,
            lo <= hi <= n,
            lower_bound(s, range.start, lo as int, hi as int) == lower_bound(
                s,
                range.start,
                0,
                n as int,
            ),
        decreases hi - lo,
    {
        let mid = lo + (hi - lo) / 2;
        if list[mid].end < range.start {
            lo = mid + 1;
        } else {
            hi = mid;
        }
    }
    let mut j = lo;
    let mut cur = range;
    while j < n && list[j].end >= cur.start && list[j].start <= cur.end
        invariant
            n == s.len(),
            list@ == s,
            lo <= j <= n,
            merge_run(s, j as int, cur) == merge_run(s, lo as int, rg),
        decreases n - j,
    {
        cur = hull_of(&list[j], &cur);
        j += 1;
    }
    proof {
        assert(list@ =~= s.take(lo as int) + s.skip(lo as int));
    }
    let mut k = lo;
    while k < j
        invariant
            n == s.len(),
            lo <= k <= j <= n,
            list@ == s.take(lo as int) + s.skip(k as int),
        decreases j - k,
    {
        let ghost before = list@;
        list.remove(lo);
        proof {
            assert(before[lo as int] == s[k as int]);
            assert(list@ =~= s.take(lo as int) + s.skip(k + 1));
        }
        k += 1;
    }
    list.insert(lo, cur);
    proof {
        assert(list@ =~= s.take(lo as int) + seq![cur] + s.skip(j as int));
        assert forall|x: u64| #[trigger]
            seq_covers(list@, x) <==> (seq_covers(s, x) || in_span(rg, x)) by {
            lemma_merged_at_covers(s, rg, x);
        }
        if ordered(s) {
            lemma_merged_at_is_insert_merged(s, rg);
            if rg.start <= rg.end {
                lemma_insert_merged_ordered(s, rg);
            }
            if nonempty_ranges(s) && rg.start < rg.end {
                lemma_insert_merged_nonempty(s, rg);
            }
        }
    }
}

impl OrderRange {
    /// Turns a list of exactly one range into the single-range variant.
    fn make_single(&mut self)
        ensures
            final(self).ranges() == old(self).ranges(),
            final(self).is_single() == (old(self).is_single() || old(self).ranges().len() == 1),
    {
        let replacement = match self {
            OrderRange::Fragment(ranges) => if ranges.len() == 1 {
                Some(copy_range(&ranges[0]))
            } else {
                None
            },
            OrderRange::Range(_) => None,
        };
        if let Some(r) = replacement {
            *self = OrderRange::Range(r);
            assert(self.ranges() =~= old(self).ranges());
        }
    }

    /// Turns the single-range variant into a list: an empty range becomes an
    /// empty list.
    fn make_fragment(&mut self)
        ensures
            final(self).ranges() == old(self).base_ranges(),
            !final(self).is_single(),
    {
        let replacement = match self {
            OrderRange::Range(range) => {
                let mut d: VecDeque<Range<u64>> = VecDeque::new();
                if range.start < range.end {
                    d.push_back(copy_range(range));
                }
                Some(d)
            },
            OrderRange::Fragment(_) => None,
        };
        if let Some(d) = replacement {
            *self = OrderRange::Fragment(d);
            assert(self.ranges() =~= old(self).base_ranges());
        }
    }

    /// Adds the clocks of `range`. A range that overlaps or touches held
    /// ranges is merged with them; otherwise it is kept as a range of its own
    /// and the value becomes a list.
    pub fn push(&mut self, range: Range<u64>)
        ensures
            final(self).ranges() == old(self).pushed_ranges(range),
            final(self).is_single() == (final(self).ranges().len() == 1),
            forall|x: u64|
                #[trigger] final(self).covers(x) <==> (old(self).covers(x) || in_span(range, x)),
            old(self).wf() && range.start <= range.end ==> final(self).wf(),
            old(self).wf() && !old(self).is_single() && old(self).ranges().len() > 0
                ==> final(self).ranges() == insert_merged(old(self).ranges(), range),
            old(self).wf() && nonempty_ranges(old(self).ranges()) && range.start < range.end
                ==> nonempty_ranges(final(self).ranges()),
    {
        let ghost rg = range;
        match self {
            OrderRange::Range(r) => {
                let next = if r.start == r.end {
                    OrderRange::Range(range)
                } else if is_continuous_range(r, &range) {
                    OrderRange::Range(hull_of(r, &range))
                } else {
                    let mut d: VecDeque<Range<u64>> = VecDeque::new();
                    if r.start < range.start {
                        d.push_back(copy_range(r));
                        d.push_back(range);
                    } else {
                        d.push_back(range);
                        d.push_back(copy_range(r));
                    }
                    OrderRange::Fragment(d)
                };
                *self = next;
            },
            OrderRange::Fragment(ranges) => {
                if ranges.len() == 0 {
                    *self = OrderRange::Range(range);
                } else {
                    push_inner(ranges, range);
                    self.make_single();
                }
            },
        }
        proof {
            let o = *old(self);
            assert(self.ranges() =~= o.pushed_ranges(rg));
            assert forall|x: u64| #[trigger]
                self.covers(x) <==> (o.covers(x) || in_span(rg, x)) by {
                lemma_pushed_covers(o, rg, x);
            }
            if o.wf() && rg.start <= rg.end {
                lemma_pushed_ordered(o, rg);
            }
            if o.wf() {
                if let OrderRange::Fragment(d) = o {
                    if d@.len() > 0 {
                        lemma_merged_at_is_insert_merged(d@, rg);
                    }
                }
            }
            if o.wf() && nonempty_ranges(o.ranges()) && rg.start < rg.end {
                lemma_pushed_nonempty(o, rg);
            }
        }
    }

    /// Removes and returns the first range; a single range is replaced by the
    /// empty range `0..0`. Nothing happens when no clock is held.
    pub fn pop(&mut self) -> (res: Option<Range<u64>>)
        ensures
            old(self).spec_is_empty() ==> res is None && *final(self) == *old(self),
            !old(self).spec_is_empty() ==> {
                &&& res == Some(old(self).ranges()[0])
                &&& final(self).is_single() == old(self).is_single()
                &&& final(self).ranges() == if old(self).is_single() {
                    seq![Range { start: 0u64, end: 0u64 }]
                } else {
                    old(self).ranges().drop_first()
                }
            },
    {
        if self.is_empty() {
            None
        } else {
            match self {
                OrderRange::Range(range) => {
                    let r = copy_range(range);
                    *self = OrderRange::Range(Range { start: 0, end: 0 });
                    Some(r)
                },
                OrderRange::Fragment(list) => {
                    let r = list.pop_front();
                    assert(list@ =~= old(self).ranges().drop_first());
                    r
                },
            }
        }
    }

    /// Adds every range of `other`, one after the other, merging ranges that
    /// overlap or touch.
    pub fn merge(&mut self, other: Self)
        ensures
            final(self).ranges() == insert_all(old(self).base_ranges(), other.ranges()),
            final(self).is_single() == (final(self).ranges().len() == 1),
            forall|x: u64|
                #[trigger] final(self).covers(x) <==> (old(self).covers(x) || other.covers(x)),
            old(self).wf() && other.wf() ==> final(self).wf(),
    {
        self.make_fragment();
        let ghost base = self.ranges();
        let ghost rs = other.ranges();
        match self {
            OrderRange::Fragment(ranges) => {
                match &other {
                    OrderRange::Range(r) => {
                        push_inner(ranges, copy_range(r));
                        proof {
                            assert(rs.drop_first() =~= Seq::<Range<u64>>::empty());
                            assert(insert_all(ranges@, rs.drop_first()) == ranges@);
                        }
                    },
                    OrderRange::Fragment(d) => {
                        let n = d.len();
                        let mut i: usize = 0;
                        proof {
                            assert(rs.skip(0) =~= rs);
                        }
                        while i < n
                            invariant
                                n == rs.len(),
                                d@ == rs,
                                i <= n,
                                insert_all(ranges@, rs.skip(i as int)) == insert_all(base, rs),
                            decreases n - i,
                        {
                            proof {
                                assert(rs.skip(i as int).drop_first() =~= rs.skip(i + 1));
                            }
                            push_inner(ranges, copy_range(&d[i]));
                            i += 1;
                        }
                        proof {
                            assert(rs.skip(n as int) =~= Seq::<Range<u64>>::empty());
                            assert(insert_all(ranges@, rs.skip(n as int)) == ranges@);
                        }
                    },
                }
            },
            OrderRange::Range(_) => {
                assert(false);
            },
        }
        self.make_single();
        proof {
            let o = *old(self);
            assert forall|x: u64| #[trigger]
                self.covers(x) <==> (o.covers(x) || other.covers(x)) by {
                lemma_insert_all_covers(o.base_ranges(), rs, x);
                lemma_base_ranges_covers(o, x);
            }
            if o.wf() && other.wf() {
                lemma_base_ranges_ordered(o);
                lemma_insert_all_ordered(o.base_ranges(), rs);
            }
        }
    }

    /// Merges neighbouring ranges that overlap or touch. An empty list
    /// becomes the empty range `0..0`, and a list left with one range becomes
    /// the single-range variant.
    pub fn squash(&mut self)
        ensures
            final(self).ranges() == old(self).squashed_ranges(),
            final(self).is_single() == (final(self).ranges().len() == 1),
            forall|x: u64| #[trigger] final(self).covers(x) <==> old(self).covers(x),
            old(self).wf() && old(self).ranges().len() > 0 ==> final(self).ranges() == old(
                self,
            ).ranges(),
            sorted_by_start(old(self).ranges()) ==> final(self).wf(),
    {
        let replacement = match self {
            OrderRange::Range(_) => None,
            OrderRange::Fragment(ranges) => {
                if ranges.len() == 0 {
                    Some(OrderRange::Range(Range { start: 0, end: 0 }))
                } else {
                    let ghost s = ranges@;
                    let n = ranges.len();
                    let mut merged: VecDeque<Range<u64>> = VecDeque::new();
                    let mut changed = false;
                    let mut cur = copy_range(&ranges[0]);
                    let mut i: usize = 1;
                    proof {
                        assert(s.skip(1) =~= s.drop_first());
                        assert(seq![s[0]] =~= s.take(1));
                    }
                    while i < n
                        invariant
                            n == s.len(),
                            ranges@ == s,
                            1 <= i <= n,
                            merged@ + squashed(cur, s.skip(i as int)) == squashed(
                                s[0],
                                s.drop_first(),
                            ),
                            !changed ==> merged@.push(cur) == s.take(i as int),
                        decreases n - i,
                    {
                        let next = copy_range(&ranges[i]);
                        let ghost t = s.skip(i as int);
                        let ghost m = merged@;
                        let ghost c = cur;
                        proof {
                            assert(t.drop_first() =~= s.skip(i + 1));
                            assert(t[0] == next);
                        }
                        if is_continuous_range(&cur, &next) {
                            cur = hull_of(&cur, &next);
                            changed = true;
                        } else {
                            merged.push_back(cur);
                            cur = next;
                            assert(merged@ + squashed(cur, s.skip(i + 1)) =~= m + squashed(c, t));
                            assert(merged@.push(cur) =~= m.push(c).push(next));
                            assert(s.take(i + 1) =~= s.take(i as int).push(next));
                        }
                        i += 1;
                    }
                    proof {
                        assert(s.skip(n as int) =~= Seq::<Range<u64>>::empty());
                        assert(s.take(n as int) =~= s);
                    }
                    merged.push_back(cur);
                    if merged.len() == 1 {
                        Some(OrderRange::Range(copy_range(&merged[0])))
                    } else if changed {
                        Some(OrderRange::Fragment(merged))
                    } else {
                        None
                    }
                }
            },
        };
        if let Some(r) = replacement {
            *self = r;
        }
        proof {
            let o = *old(self);
            assert(self.ranges() =~= o.squashed_ranges());
            assert forall|x: u64| #[trigger] self.covers(x) <==> o.covers(x) by {
                lemma_squashed_ranges_covers(o, x);
            }
            if o.wf() && o.ranges().len() > 0 {
                lemma_squashed_ranges_ordered_identity(o);
            }
            if sorted_by_start(o.ranges()) {
                lemma_squashed_ranges_sorted(o);
            }
        }
    }
}


impl Default for OrderRange {
    /// The empty range `0..0`.
    fn default() -> (r: Self)
        ensures
            r == OrderRange::Range(Range { start: 0, end: 0 }),
    {
        OrderRange::Range(Range { start: 0, end: 0 })
    }
}

impl From<Range<u64>> for OrderRange {
    /// The single range `range`.
    fn from(range: Range<u64>) -> (r: Self) {
        OrderRange::Range(range)
    }
}

impl vstd::std_specs::convert::FromSpecImpl<Range<u64>> for OrderRange {
    open spec fn obeys_from_spec() -> bool {
        true
    }

    open spec fn from_spec(range: Range<u64>) -> Self {
        OrderRange::Range(range)
    }
}

impl From<Vec<Range<u64>>> for OrderRange {
    /// The list of the ranges of `value`, in order.
    fn from(value: Vec<Range<u64>>) -> (r: Self)
        ensures
            r.ranges() == value@,
            !r.is_single(),
    {
        let mut d: VecDeque<Range<u64>> = VecDeque::new();
        let mut i: usize = 0;
        while i < value.len()
            invariant
                i <= value@.len(),
                d@ == value@.take(i as int),
            decreases value@.len() - i,
        {
            d.push_back(copy_range(&value[i]));
            i += 1;
            assert(d@ =~= value@.take(i as int));
        }
        assert(value@.take(i as int) =~= value@);
        OrderRange::Fragment(d)
    }
}

impl vstd::std_specs::convert::FromSpecImpl<Vec<Range<u64>>> for OrderRange {
    /// A deque cannot be written down from a vector in a spec, so the
    /// conversion is described by the `ensures` of `from` instead.
    open spec fn obeys_from_spec() -> bool {
        false
    }

    open spec fn from_spec(value: Vec<Range<u64>>) -> Self {
        OrderRange::Range(Range { start: 0, end: 0 })
    }
}

impl From<VecDeque<Range<u64>>> for OrderRange {
    /// The list of ranges `value`, as it is.
    fn from(value: VecDeque<Range<u64>>) -> (r: Self) {
        OrderRange::Fragment(value)
    }
}

impl vstd::std_specs::convert::FromSpecImpl<VecDeque<Range<u64>>> for OrderRange {
    open spec fn obeys_from_spec() -> bool {
        true
    }

    open spec fn from_spec(value: VecDeque<Range<u64>>) -> Self {
        OrderRange::Fragment(value)
    }
}

/// Walks over the ranges of an [`OrderRange`], in order.
pub struct OrderRangeIter<'a> {
    range: &'a OrderRange,
    idx: usize,
}

impl<'a> OrderRangeIter<'a> {
    /// The value walked over.
    pub closed spec fn source(&self) -> OrderRange {
        *self.range
    }

    /// How many ranges have been handed out.
    pub closed spec fn position(&self) -> int {
        self.idx as int
    }

    /// The next range, if any is left.
    pub fn next(&mut self) -> (item: Option<Range<u64>>)
        ensures
            final(self).source() == old(self).source(),
            old(self).position() < old(self).source().ranges().len() ==> {
                &&& item == Some(old(self).source().ranges()[old(self).position()])
                &&& final(self).position() == old(self).position() + 1
            },
            old(self).position() >= old(self).source().ranges().len() ==> {
                &&& item is None
                &&& final(self).position() == old(self).position()
            },
    {
        match self.range {
            OrderRange::Range(range) => {
                if self.idx == 0 {
                    self.idx += 1;
                    Some(copy_range(range))
                } else {
                    None
                }
            },
            OrderRange::Fragment(ranges) => {
                if self.idx < ranges.len() {
                    let range = copy_range(&ranges[self.idx]);
                    self.idx += 1;
                    Some(range)
                } else {
                    None
                }
            },
        }
    }
}

impl OrderRange {
    /// A walk over the ranges, from the first.
    pub fn iter(&self) -> (it: OrderRangeIter<'_>)
        ensures
            it.source() == *self,
            it.position() == 0,
    {
        OrderRangeIter { range: self, idx: 0 }
    }

    /// The ranges held, in order, as a vector.
    fn collect_ranges(&self) -> (v: Vec<Range<u64>>)
        ensures
            v@ == self.ranges(),
    {
        let mut v: Vec<Range<u64>> = Vec::new();
        match self {
            OrderRange::Range(range) => {
                v.push(copy_range(range));
                assert(v@ =~= self.ranges());
            },
            OrderRange::Fragment(ranges) => {
                let mut i: usize = 0;
                while i < ranges.len()
                    invariant
                        i <= ranges@.len(),
                        v@ == ranges@.take(i as int),
                    decreases ranges@.len() - i,
                {
                    v.push(copy_range(&ranges[i]));
                    i += 1;
                    assert(v@ =~= ranges@.take(i as int));
                }
                assert(ranges@.take(i as int) =~= ranges@);
            },
        }
        v
    }

    /// Whether every old range, in order, lies inside one of the new ranges,
    /// taken in order too.
    fn check_range_covered(old_vec: &[Range<u64>], new_vec: &[Range<u64>]) -> (b: bool)
        ensures
            b == covered_in_order(old_vec@, new_vec@),
            b && new_vec@.len() > 0 ==> forall|i: int|
                0 <= i < old_vec@.len() ==> exists|j: int|
                    0 <= j < new_vec@.len() && (#[trigger] new_vec@[j]).start <= (
                    #[trigger] old_vec@[i]).start && old_vec@[i].end <= new_vec@[j].end,
    {
        proof {
            if covered_in_order(old_vec@, new_vec@) && new_vec@.len() > 0 {
                lemma_covered_each_inside(old_vec@, new_vec@);
                assert forall|i: int| 0 <= i < old_vec@.len() implies exists|j: int|
                    0 <= j < new_vec@.len() && (#[trigger] new_vec@[j]).start <= (
                    #[trigger] old_vec@[i]).start && old_vec@[i].end <= new_vec@[j].end by {
                    assert(inside_some(old_vec@[i], new_vec@));
                }
            }
        }
        if new_vec.len() == 0 {
            return true;
        }
        let mut i: usize = 0;
        let mut j: usize = 0;
        proof {
            assert(old_vec@.skip(0) =~= old_vec@);
            assert(new_vec@.skip(0) =~= new_vec@);
        }
        while i < old_vec.len()
            invariant
                i <= old_vec@.len(),
                j < new_vec@.len(),
                covered_in_order(old_vec@.skip(i as int), new_vec@.skip(j as int))
                    == covered_in_order(old_vec@, new_vec@),
            decreases (old_vec@.len() - i) + (new_vec@.len() - j),
        {
            let ghost o = old_vec@.skip(i as int);
            let ghost n = new_vec@.skip(j as int);
            proof {
                assert(o[0] == old_vec@[i as int]);
                assert(n[0] == new_vec@[j as int]);
                assert(o.drop_first() =~= old_vec@.skip(i + 1));
                assert(n.drop_first() =~= new_vec@.skip(j + 1));
            }
            let old_range = &old_vec[i];
            let new_range = &new_vec[j];
            if old_range.start < new_range.start || old_range.end > new_range.end {
                if j + 1 < new_vec.len() {
                    j += 1;
                } else {
                    return false;
                }
            } else {
                i += 1;
            }
        }
        proof {
            assert(old_vec@.skip(i as int).len() == 0);
        }
        true
    }
}


impl OrderRange {
    /// The parts of `new_range` that `self` does not hold. `self` must be
    /// covered by `new_range`: each of its ranges, in order, must lie inside
    /// one of the ranges of `new_range`, taken in order too; otherwise the
    /// answer is empty.
    pub fn diff_range(&self, new_range: &OrderRange) -> (diffs: Vec<Range<u64>>)
        ensures
            diffs@ == range_diff(self.ranges(), new_range.ranges()),
            self.wf() && new_range.wf() && each_inside(self.ranges(), new_range.ranges()) ==> forall|
                x: u64,
            |
                #[trigger] seq_covers(diffs@, x) <==> (new_range.covers(x) && !self.covers(x)),
            self.wf() && new_range.wf() && each_inside(self.ranges(), new_range.ranges())
                && nonempty_ranges(self.ranges()) ==> ordered(diffs@),
            self.wf() && new_range.wf() ==> forall|x: u64|
                #[trigger] seq_covers(diffs@, x) ==> new_range.covers(x) && !self.covers(x),
            (exists|i: int|
                0 <= i < self.ranges().len() && forall|j: int|
                    0 <= j < new_range.ranges().len() ==> !(new_range.ranges()[j].start
                        <= (#[trigger] self.ranges()[i]).start && self.ranges()[i].end
                        <= new_range.ranges()[j].end)) ==> diffs@.len() == 0,
    {
        let diffs = self.diff_walk_ranges(new_range);
        proof {
            if self.wf() && new_range.wf() {
                assert forall|x: u64| #[trigger] seq_covers(diffs@, x) implies new_range.covers(x)
                    && !self.covers(x) by {
                    lemma_diff_range_within_difference(*self, *new_range, x);
                }
            }
            if exists|i: int|
                0 <= i < self.ranges().len() && forall|j: int|
                    0 <= j < new_range.ranges().len() ==> !(new_range.ranges()[j].start
                        <= (#[trigger] self.ranges()[i]).start && self.ranges()[i].end
                        <= new_range.ranges()[j].end) {
                let i = choose|i: int|
                    0 <= i < self.ranges().len() && forall|j: int|
                        0 <= j < new_range.ranges().len() ==> !(new_range.ranges()[j].start
                            <= (#[trigger] self.ranges()[i]).start && self.ranges()[i].end
                            <= new_range.ranges()[j].end);
                lemma_diff_range_uncovered_is_empty(*self, *new_range, i);
            }
        }
        proof {
            if self.wf() && new_range.wf() && each_inside(self.ranges(), new_range.ranges()) {
                assert forall|x: u64| #[trigger]
                    seq_covers(diffs@, x) <==> (new_range.covers(x) && !self.covers(x)) by {
                    lemma_diff_range_is_difference(*self, *new_range, x);
                }
                if nonempty_ranges(self.ranges()) {
                    lemma_diff_range_ordered(*self, *new_range);
                }
            }
        }
        diffs
    }

    fn diff_walk_ranges(&self, new_range: &OrderRange) -> (diffs: Vec<Range<u64>>)
        ensures
            diffs@ == range_diff(self.ranges(), new_range.ranges()),
    {
        let old_vec = self.collect_ranges();
        let new_vec = new_range.collect_ranges();
        if !Self::check_range_covered(old_vec.as_slice(), new_vec.as_slice()) {
            return Vec::new();
        }
        let ghost old = old_vec@;
        let ghost new = new_vec@;
        let mut diffs: Vec<Range<u64>> = Vec::new();
        let mut old_idx: usize = 0;
        let mut j: usize = 0;
        proof {
            assert(old.skip(0) =~= old);
            assert(new.skip(0) =~= new);
            assert(diffs@ + diff_walk(old, new) =~= diff_walk(old, new));
        }
        while j < new_vec.len()
            invariant
                old_vec@ == old,
                new_vec@ == new,
                old_idx <= old.len(),
                j <= new.len(),
                diffs@ + diff_walk(old.skip(old_idx as int), new.skip(j as int)) == diff_walk(
                    old,
                    new,
                ),
            decreases new.len() - j,
        {
            let n = &new_vec[j];
            let start_idx = old_idx;
            proof {
                assert(old.skip(start_idx as int) =~= old.skip(old_idx as int));
            }
            while old_idx < old_vec.len() && old_vec[old_idx].start <= n.end
                invariant
                    old_vec@ == old,
                    start_idx <= old_idx <= old.len(),
                    lead_count(old.skip(start_idx as int), n.end) == (old_idx - start_idx)
                        + lead_count(old.skip(old_idx as int), n.end),
                decreases old.len() - old_idx,
            {
                proof {
                    let t = old.skip(old_idx as int);
                    assert(t[0] == old[old_idx as int]);
                    assert(t.drop_first() =~= old.skip(old_idx + 1));
                }
                old_idx += 1;
            }
            let ghost ov = old.subrange(start_idx as int, old_idx as int);
            let ghost d0 = diffs@;
            proof {
                let t = old.skip(old_idx as int);
                if old_idx < old.len() {
                    assert(t[0] == old[old_idx as int]);
                }
                assert(lead_count(t, n.end) == 0);
                let k = (old_idx - start_idx) as int;
                let u = old.skip(start_idx as int);
                assert(u.take(k) =~= ov);
                assert(u.skip(k) =~= t);
                let w = new.skip(j as int);
                assert(w[0] == *n);
                assert(w.drop_first() =~= new.skip(j + 1));
            }
            if start_idx == old_idx {
                diffs.push(copy_range(n));
                assert(diffs@ =~= d0 + gaps(*n, ov));
            } else {
                let mut last_end = old_vec[start_idx].start;
                if last_end > n.start {
                    diffs.push(Range { start: n.start, end: last_end });
                }
                let mut k = start_idx;
                proof {
                    assert(old.subrange(k as int, old_idx as int) =~= ov);
                    assert(ov[0] == old[start_idx as int]);
                    assert(diffs@ + gap_walk(last_end, ov, n.end) =~= d0 + gaps(*n, ov));
                }
                while k < old_idx
                    invariant
                        old_vec@ == old,
                        start_idx <= k <= old_idx,
                        old_idx <= old.len(),
                        diffs@ + gap_walk(last_end, old.subrange(k as int, old_idx as int), n.end)
                            == d0 + gaps(*n, ov),
                    decreases old_idx - k,
                {
                    let ghost sub = old.subrange(k as int, old_idx as int);
                    let ghost dk = diffs@;
                    let ghost le = last_end;
                    proof {
                        assert(sub[0] == old[k as int]);
                        assert(sub.drop_first() =~= old.subrange(k + 1, old_idx as int));
                    }
                    let o = &old_vec[k];
                    if o.start > last_end {
                        diffs.push(Range { start: last_end, end: o.start });
                    }
                    last_end = o.end;
                    k += 1;
                    assert(diffs@ + gap_walk(last_end, old.subrange(k as int, old_idx as int), n.end)
                        =~= dk + gap_walk(le, sub, n.end));
                }
                let ghost dk = diffs@;
                proof {
                    assert(old.subrange(k as int, old_idx as int) =~= Seq::<Range<u64>>::empty());
                }
                if n.end > last_end {
                    diffs.push(Range { start: last_end, end: n.end });
                }
                assert(diffs@ =~= dk + gap_walk(
                    last_end,
                    old.subrange(k as int, old_idx as int),
                    n.end,
                ));
            }
            j += 1;
            proof {
                assert(diffs@ + diff_walk(old.skip(old_idx as int), new.skip(j as int)) =~= d0
                    + diff_walk(old.skip(start_idx as int), new.skip(j - 1)));
            }
        }
        proof {
            assert(new.skip(j as int) =~= Seq::<Range<u64>>::empty());
            assert(diffs@ + diff_walk(old.skip(old_idx as int), new.skip(j as int)) =~= diffs@);
        }
        diffs
    }
}

} // verus!
