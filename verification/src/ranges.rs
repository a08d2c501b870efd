//! Half-open ranges of byte offsets, and lists of them.
//!
//! A list of ranges is *merged* when its ranges are non-empty, ascend, and
//! are separated by gaps: then it is the one shortest list that covers the
//! offsets it covers.

use vstd::prelude::*;

verus! {

/// The offsets `start..end`.
#[derive(Debug, Clone, Copy, PartialEq, Eq)]
pub struct Range {
    pub start: usize,
    pub end: usize,
}

impl Range {
    pub fn new(start: usize, end: usize) -> (range: Self)
        ensures
            range.start == start,
            range.end == end,
    {
        Self { start, end }
    }

    /// Whether `pos` lies in the range.
    pub open spec fn contains(self, pos: int) -> bool {
        self.start <= pos < self.end
    }
}

/// Whether some range of the list contains `pos`.
pub open spec fn covers(ranges: Seq<Range>, pos: int) -> bool {
    exists|i: int| 0 <= i < ranges.len() && (#[trigger] ranges[i]).contains(pos)
}

/// Whether some range of the list starts or ends at `pos`.
pub open spec fn is_boundary(ranges: Seq<Range>, pos: int) -> bool {
    exists|i: int|
        0 <= i < ranges.len() && ((#[trigger] ranges[i]).start == pos || ranges[i].end == pos)
}

/// Every range is non-empty, and each ends before the next starts, with at
/// least one offset between them.
pub open spec fn is_merged(ranges: Seq<Range>) -> bool {
    &&& forall|i: int| 0 <= i < ranges.len() ==> (#[trigger] ranges[i]).start < ranges[i].end
    &&& forall|i: int, j: int|
        0 <= i < j < ranges.len() ==> (#[trigger] ranges[i]).end < (#[trigger] ranges[j]).start
}

/// Whether `ranges` is the merged list that covers exactly the values of
/// `indices`. The largest `usize` is left out: no range of `usize` bounds
/// can contain it, as the end of a range lies beyond what it contains.
pub open spec fn is_merge_of(ranges: Seq<Range>, indices: Seq<usize>) -> bool {
    &&& is_merged(ranges)
    &&& forall|pos: int|
        #![trigger covers(ranges, pos)]
        covers(ranges, pos) <==> (0 <= pos < usize::MAX && indices.contains(pos as usize))
}

/// The offsets that the ranges contain, range by range, each range in
/// ascending order.
pub open spec fn flatten(ranges: Seq<Range>) -> Seq<usize>
    decreases ranges.len(),
{
    if ranges.len() == 0 {
        Seq::empty()
    } else {
        flatten(ranges.drop_last()) + offsets_in(ranges.last())
    }
}

/// The offsets that one range contains, in ascending order.
pub open spec fn offsets_in(range: Range) -> Seq<usize> {
    Seq::new(
        if range.start < range.end {
            (range.end - range.start) as nat
        } else {
            0
        },
        |k: int| (range.start + k) as usize,
    )
}

/// Adding a range to a list adds what it contains to what the list covers.
pub proof fn lemma_covers_push(ranges: Seq<Range>, range: Range, pos: int)
    ensures
        covers(ranges.push(range), pos) <==> covers(ranges, pos) || range.contains(pos),
{
    let pushed = ranges.push(range);
    if covers(ranges, pos) {
        let i = choose|i: int| 0 <= i < ranges.len() && (#[trigger] ranges[i]).contains(pos);
        assert(pushed[i].contains(pos));
    }
    if range.contains(pos) {
        assert(pushed[ranges.len() as int].contains(pos));
    }
}

/// In a merged list the match state changes at every boundary: a start is
/// covered and the offset before it is not, an end is not covered and the
/// offset before it is.
pub proof fn lemma_boundary_changes_state(ranges: Seq<Range>, pos: int)
    requires
        is_merged(ranges),
        is_boundary(ranges, pos),
    ensures
        covers(ranges, pos) != covers(ranges, pos - 1),
{
}

/// Where the match state changes, a range starts or ends. This holds of
/// every list, merged or not.
pub proof fn lemma_state_change_is_boundary(ranges: Seq<Range>, pos: int)
    requires
        covers(ranges, pos) != covers(ranges, pos - 1),
    ensures
        is_boundary(ranges, pos),
{
}

/// What the ranges after the first cover: what the list covers from the
/// first range's end on.
proof fn lemma_covers_drop_first(ranges: Seq<Range>, pos: int)
    requires
        is_merged(ranges),
        ranges.len() > 0,
    ensures
        is_merged(ranges.drop_first()),
        covers(ranges.drop_first(), pos) <==> covers(ranges, pos) && pos >= ranges[0].end,
{
    let rest = ranges.drop_first();
    assert forall|i: int, j: int| 0 <= i < j < rest.len() implies (#[trigger] rest[i]).end < (
    #[trigger] rest[j]).start by {}
    assert forall|i: int| 0 <= i < rest.len() implies (#[trigger] rest[i]).start < rest[i].end by {}
    if covers(ranges, pos) && pos >= ranges[0].end {
        let i = choose|i: int| 0 <= i < ranges.len() && (#[trigger] ranges[i]).contains(pos);
        assert(rest[i - 1].contains(pos));
    }
}

/// The first range of a merged list starts at the least covered offset and
/// ends at the least offset beyond it that is not covered.
proof fn lemma_first_range(ranges: Seq<Range>)
    requires
        is_merged(ranges),
        ranges.len() > 0,
    ensures
        forall|pos: int| covers(ranges, pos) ==> ranges[0].start <= pos,
        forall|pos: int| ranges[0].start <= pos < ranges[0].end ==> covers(ranges, pos),
        !covers(ranges, ranges[0].end as int),
{
    assert forall|pos: int| covers(ranges, pos) implies ranges[0].start <= pos by {}
    assert forall|pos: int| ranges[0].start <= pos < ranges[0].end implies covers(
        ranges,
        pos,
    ) by {}
}

/// Two merged lists that cover the same offsets are the same list.
pub proof fn lemma_merged_unique(a: Seq<Range>, b: Seq<Range>)
    requires
        is_merged(a),
        is_merged(b),
        forall|pos: int| covers(a, pos) <==> covers(b, pos),
    ensures
        a == b,
    decreases a.len(),
{
    if a.len() == 0 {
        if b.len() > 0 {
            assert(covers(b, b[0].start as int));
        }
    } else {
        assert(covers(b, a[0].start as int));
        lemma_first_range(a);
        lemma_first_range(b);
        assert(covers(a, b[0].start as int));
        assert forall|pos: int| covers(a.drop_first(), pos) <==> covers(b.drop_first(), pos) by {
            lemma_covers_drop_first(a, pos);
            lemma_covers_drop_first(b, pos);
        }
        lemma_covers_drop_first(a, 0);
        lemma_covers_drop_first(b, 0);
        lemma_merged_unique(a.drop_first(), b.drop_first());
        assert(a =~= seq![a[0]] + a.drop_first());
    }
}

/// The flattened list holds what the ranges cover.
pub proof fn lemma_flatten_covers(ranges: Seq<Range>, pos: int)
    ensures
        covers(ranges, pos) <==> 0 <= pos <= usize::MAX && flatten(ranges).contains(pos as usize),
    decreases ranges.len(),
{
    if ranges.len() > 0 {
        let last = ranges.last();
        let head = ranges.drop_last();
        let run = offsets_in(last);
        lemma_flatten_covers(head, pos);
        assert(ranges =~= head.push(last));
        lemma_covers_push(head, last, pos);
        let flat = flatten(head) + run;
        if last.contains(pos) {
            assert(flat[flatten(head).len() + pos - last.start] == pos as usize);
        }
        if 0 <= pos <= usize::MAX && flatten(head).contains(pos as usize) {
            let k = choose|k: int| 0 <= k < flatten(head).len() && flatten(head)[k] == pos as usize;
            assert(flat[k] == pos as usize);
        }
    }
}

/// Merging is idempotent: the merged list of what a merged list covers is
/// that list again.
pub proof fn lemma_merge_idempotent(ranges: Seq<Range>, again: Seq<Range>)
    requires
        is_merged(ranges),
        is_merge_of(again, flatten(ranges)),
    ensures
        again == ranges,
{
    assert forall|pos: int| covers(again, pos) <==> covers(ranges, pos) by {
        lemma_flatten_covers(ranges, pos);
    }
    lemma_merged_unique(again, ranges);
}

/// No value is followed by a smaller one.
spec fn is_ascending(values: Seq<usize>) -> bool {
    forall|i: int, j: int| 0 <= i <= j < values.len() ==> values[i] <= values[j]
}

/// Every value is followed by larger ones only.
pub open spec fn is_strictly_ascending(values: Seq<usize>) -> bool {
    forall|i: int, j: int| 0 <= i < j < values.len() ==> values[i] < values[j]
}

/// Whether `value` is among the first `n` of `values`.
spec fn has_before(values: Seq<usize>, n: int, value: int) -> bool {
    exists|k: int| 0 <= k < n && #[trigger] values[k] == value
}

/// Calls `slice::sort_unstable`. Not proved: that the vector afterwards
/// holds the values it held before, each as often as before, in ascending
/// order.
#[verifier::external_body]
fn sort_unstable(values: &mut Vec<usize>)
    ensures
        is_ascending(final(values)@),
        final(values)@.to_multiset() == old(values)@.to_multiset(),
{
    values.sort_unstable();
}

/// The values of `indices` in ascending order, each once.
pub fn sort_and_dedup(indices: Vec<usize>) -> (sorted: Vec<usize>)
    ensures
        is_strictly_ascending(sorted@),
        forall|value: usize| sorted@.contains(value) <==> indices@.contains(value),
{
    let mut ordered = indices;
    sort_unstable(&mut ordered);
    proof {
        ordered@.to_multiset_ensures();
        indices@.to_multiset_ensures();
        assert forall|value: usize| indices@.contains(value) <==> has_before(
            ordered@,
            ordered@.len() as int,
            value as int,
        ) by {
            assert(indices@.contains(value) <==> indices@.to_multiset().count(value) > 0);
        }
    }
    let mut sorted: Vec<usize> = Vec::new();
    let mut i: usize = 0;
    while i < ordered.len()
        invariant
            i <= ordered.len(),
            is_ascending(ordered@),
            is_strictly_ascending(sorted@),
            i == 0 ==> sorted@.len() == 0,
            i > 0 ==> sorted@.len() > 0 && sorted@.last() == ordered@[i - 1],
            forall|value: usize|
                sorted@.contains(value) <==> has_before(ordered@, i as int, value as int),
        decreases ordered.len() - i,
    {
        let value = ordered[i];
        let ghost before = sorted@;
        if i == 0 || value != ordered[i - 1] {
            sorted.push(value);
            proof {
                assert forall|a: int, b: int| 0 <= a < b < sorted@.len() implies sorted@[a]
                    < sorted@[b] by {
                    if b == before.len() {
                        assert(before.contains(before[a]));
                        let k = choose|k: int|
                            0 <= k < i && #[trigger] ordered@[k] == before[a] as int;
                        assert(ordered@[k] <= ordered@[i - 1]);
                    }
                }
            }
        }
        proof {
            assert forall|other: usize|
                sorted@.contains(other) <==> has_before(ordered@, i + 1, other as int) by {
                if sorted@.contains(other) {
                    let at = choose|at: int| 0 <= at < sorted@.len() && sorted@[at] == other;
                    if at < before.len() {
                        assert(before.contains(other));
                        let k = choose|k: int|
                            0 <= k < i && #[trigger] ordered@[k] == other as int;
                        assert(0 <= k < i + 1 && ordered@[k] == other as int);
                    }
                }
                if has_before(ordered@, i + 1, other as int) {
                    let k = choose|k: int|
                        0 <= k < i + 1 && #[trigger] ordered@[k] == other as int;
                    if k < i {
                        assert(before.contains(other));
                        let at = choose|at: int| 0 <= at < before.len() && before[at] == other;
                        assert(sorted@[at] == other);
                    } else if sorted@.len() > before.len() {
                        assert(sorted@[before.len() as int] == other);
                    }
                }
            }
        }
        i += 1;
    }
    sorted
}

/// What holds while the sorted indices are swept: the ranges closed so far,
/// together with the open window `start..end`, cover the first `n` indices,
/// the largest `usize` left out.
spec fn sweep_covers(
    ranges: Seq<Range>,
    start: int,
    end: int,
    sorted: Seq<usize>,
    n: int,
) -> bool {
    forall|pos: int| #[trigger]
        swept(ranges, start, end, pos) == (0 <= pos < usize::MAX && has_before(sorted, n, pos))
}

/// Whether `pos` lies in one of the ranges or in the window `start..end`.
spec fn swept(ranges: Seq<Range>, start: int, end: int, pos: int) -> bool {
    covers(ranges, pos) || start <= pos < end
}

/// The window grows by the next index when that index is the window's end.
proof fn lemma_sweep_extend(
    ranges: Seq<Range>,
    start: int,
    end: int,
    grown: int,
    sorted: Seq<usize>,
    n: int,
)
    requires
        0 <= n < sorted.len(),
        start <= end,
        sweep_covers(ranges, start, end, sorted, n),
        sorted[n] == end,
        grown == if end < usize::MAX {
            end + 1
        } else {
            end
        },
    ensures
        sweep_covers(ranges, start, grown, sorted, n + 1),
{
    assert forall|pos: int| #[trigger]
        swept(ranges, start, grown, pos) == (0 <= pos < usize::MAX && has_before(
            sorted,
            n + 1,
            pos,
        )) by {
        assert(swept(ranges, start, end, pos) == (0 <= pos < usize::MAX && has_before(
            sorted,
            n,
            pos,
        )));
        lemma_has_before_step(sorted, n, pos);
    }
}

/// The window is closed as a range, and a new one opens at the next index.
proof fn lemma_sweep_close(ranges: Seq<Range>, start: int, end: int, sorted: Seq<usize>, n: int)
    requires
        0 <= n < sorted.len(),
        0 <= start <= usize::MAX,
        0 <= end <= usize::MAX,
        sweep_covers(ranges, start, end, sorted, n),
    ensures
        sweep_covers(
            ranges.push(Range { start: start as usize, end: end as usize }),
            sorted[n] as int,
            if sorted[n] < usize::MAX {
                sorted[n] + 1
            } else {
                sorted[n] as int
            },
            sorted,
            n + 1,
        ),
{
    let closed = Range { start: start as usize, end: end as usize };
    let index = sorted[n] as int;
    let grown = if index < usize::MAX {
        index + 1
    } else {
        index
    };
    assert forall|pos: int| #[trigger]
        swept(ranges.push(closed), index, grown, pos) == (0 <= pos < usize::MAX && has_before(
            sorted,
            n + 1,
            pos,
        )) by {
        lemma_covers_push(ranges, closed, pos);
        assert(swept(ranges, start, end, pos) == (0 <= pos < usize::MAX && has_before(
            sorted,
            n,
            pos,
        )));
        lemma_has_before_step(sorted, n, pos);
    }
}

/// Once every index is swept and the window closed, the ranges are the
/// merged ranges of the indices given.
proof fn lemma_sweep_done(
    ranges: Seq<Range>,
    start: int,
    end: int,
    sorted: Seq<usize>,
    given: Seq<usize>,
    closed: Seq<Range>,
)
    requires
        0 <= start <= usize::MAX,
        0 <= end <= usize::MAX,
        sweep_covers(ranges, start, end, sorted, sorted.len() as int),
        forall|value: usize| sorted.contains(value) <==> given.contains(value),
        closed == if start < end {
            ranges.push(Range { start: start as usize, end: end as usize })
        } else {
            ranges
        },
    ensures
        forall|pos: int|
            #![trigger covers(closed, pos)]
            covers(closed, pos) <==> (0 <= pos < usize::MAX && given.contains(pos as usize)),
{
    let last = Range { start: start as usize, end: end as usize };
    assert forall|pos: int|
        #![trigger covers(closed, pos)]
        (covers(closed, pos) <==> (0 <= pos < usize::MAX && given.contains(pos as usize))) by {
        if start < end {
            lemma_covers_push(ranges, last, pos);
        }
        assert(swept(ranges, start, end, pos) == (0 <= pos < usize::MAX && has_before(
            sorted,
            sorted.len() as int,
            pos,
        )));
    }
}

/// The merged ranges that cover the values of `indices`, whatever their
/// order and however often each occurs.
pub fn to_ranges(indices: Vec<usize>) -> (ranges: Vec<Range>)
    ensures
        is_merge_of(ranges@, indices@),
{
    if indices.len() == 0 {
        let ranges: Vec<Range> = Vec::new();
        proof {
            assert forall|pos: int|
                #![trigger covers(ranges@, pos)]
                (covers(ranges@, pos) <==> (0 <= pos < usize::MAX && indices@.contains(
                    pos as usize,
                ))) by {}
        }
        return ranges;
    }
    let ghost given = indices@;
    let sorted = sort_and_dedup(indices);
    proof {
        assert(given.contains(given[0]));
    }
    let mut ranges: Vec<Range> = Vec::new();
    let mut start = sorted[0];
    let mut end = sorted[0].saturating_add(1);
    let mut i: usize = 1;
    proof {
        assert forall|pos: int| #[trigger]
            swept(ranges@, start as int, end as int, pos) == (0 <= pos < usize::MAX && has_before(
                sorted@,
                1,
                pos,
            )) by {}
    }
    while i < sorted.len()
        invariant
            1 <= i <= sorted.len(),
            is_strictly_ascending(sorted@),
            is_merged(ranges@),
            forall|k: int| 0 <= k < ranges@.len() ==> (#[trigger] ranges@[k]).end < start,
            start <= sorted@[i - 1],
            end == if sorted@[i - 1] < usize::MAX {
                sorted@[i - 1] + 1
            } else {
                usize::MAX as int
            },
            sweep_covers(ranges@, start as int, end as int, sorted@, i as int),
        decreases sorted.len() - i,
    {
        let index = sorted[i];
        let ghost before = ranges@;
        if index == end {
            let ghost old_end = end;
            end = index.saturating_add(1);
            proof {
                lemma_sweep_extend(
                    before,
                    start as int,
                    old_end as int,
                    end as int,
                    sorted@,
                    i as int,
                );
            }
        } else {
            proof {
                lemma_sweep_close(before, start as int, end as int, sorted@, i as int);
            }
            ranges.push(Range::new(start, end));
            proof {
                assert forall|a: int, b: int| 0 <= a < b < ranges@.len() implies (
                #[trigger] ranges@[a]).end < (#[trigger] ranges@[b]).start by {}
            }
            start = index;
            end = index.saturating_add(1);
        }
        i += 1;
    }
    let ghost before = ranges@;
    if start < end {
        ranges.push(Range::new(start, end));
        proof {
            assert forall|a: int, b: int| 0 <= a < b < ranges@.len() implies (
            #[trigger] ranges@[a]).end < (#[trigger] ranges@[b]).start by {}
        }
    }
    proof {
        lemma_sweep_done(before, start as int, end as int, sorted@, given, ranges@);
    }
    ranges
}

/// Among the first `n + 1` values are the first `n` and the one after them.
proof fn lemma_has_before_step(values: Seq<usize>, n: int, value: int)
    requires
        0 <= n < values.len(),
    ensures
        has_before(values, n + 1, value) <==> has_before(values, n, value) || values[n] == value,
{
}

/// The least offset beyond `pos` at which a range starts or ends, if there
/// is one.
pub fn find_next_break(pos: usize, matches: &[Range]) -> (found: Option<usize>)
    ensures
        match found {
            Some(next) => {
                &&& pos < next
                &&& is_boundary(matches@, next as int)
                &&& forall|other: int| pos < other && is_boundary(matches@, other) ==> next <= other
            },
            None => forall|other: int| pos < other ==> !is_boundary(matches@, other),
        },
{
    let mut found: Option<usize> = None;
    let mut i: usize = 0;
    while i < matches.len()
        invariant
            i <= matches.len(),
            match found {
                Some(next) => {
                    &&& pos < next
                    &&& is_boundary(matches@.take(i as int), next as int)
                    &&& forall|other: int|
                        pos < other && is_boundary(matches@.take(i as int), other) ==> next
                            <= other
                },
                None => forall|other: int|
                    pos < other ==> !is_boundary(matches@.take(i as int), other),
            },
        decreases matches.len() - i,
    {
        let range = matches[i];
        let ghost seen = matches@.take(i as int);
        let ghost grown = matches@.take(i + 1);
        if range.start > pos {
            found = closer(found, range.start);
        }
        if range.end > pos {
            found = closer(found, range.end);
        }
        proof {
            assert(grown == seen.push(range));
            assert forall|other: int| is_boundary(grown, other) <==> is_boundary(seen, other)
                || range.start == other || range.end == other by {
                lemma_boundary_push(seen, range, other);
            }
        }
        i += 1;
    }
    proof {
        assert(matches@.take(i as int) == matches@);
    }
    found
}

/// The smaller of a candidate and what was found before.
fn closer(found: Option<usize>, candidate: usize) -> (best: Option<usize>)
    ensures
        best == Some(
            match found {
                Some(earlier) => if earlier <= candidate {
                    earlier
                } else {
                    candidate
                },
                None => candidate,
            },
        ),
{
    match found {
        Some(earlier) => if earlier <= candidate {
            Some(earlier)
        } else {
            Some(candidate)
        },
        None => Some(candidate),
    }
}

/// Adding a range to a list adds its two ends to the list's boundaries.
proof fn lemma_boundary_push(ranges: Seq<Range>, range: Range, pos: int)
    ensures
        is_boundary(ranges.push(range), pos) <==> is_boundary(ranges, pos) || range.start == pos
            || range.end == pos,
{
    let pushed = ranges.push(range);
    if is_boundary(ranges, pos) {
        let i = choose|i: int|
            0 <= i < ranges.len() && ((#[trigger] ranges[i]).start == pos || ranges[i].end == pos);
        assert(pushed[i].start == pos || pushed[i].end == pos);
    }
    if range.start == pos || range.end == pos {
        assert(pushed[ranges.len() as int] == range);
    }
}

} // verus!
