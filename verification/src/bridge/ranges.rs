//! Lists of byte ranges of one file that wait for upload.

use vstd::prelude::*;

verus! {

/// Half-open byte range `[start, end)` of pending data for one file.
pub type Range = (u64, u64);

/// Byte `x` lies in range `r`.
pub open spec fn in_range(r: Range, x: int) -> bool {
    r.0 <= x < r.1
}

/// Byte `x` lies in one of the ranges.
pub open spec fn covers(s: Seq<Range>, x: int) -> bool {
    exists|i: int| 0 <= i < s.len() && in_range(#[trigger] s[i], x)
}

/// The ranges are not empty, stand in ascending order, and neither overlap nor
/// touch.
pub open spec fn is_range_list(s: Seq<Range>) -> bool {
    &&& forall|i: int| 0 <= i < s.len() ==> (#[trigger] s[i]).0 < s[i].1
    &&& forall|i: int, j: int| 0 <= i < j < s.len() ==> (#[trigger] s[i]).1 < (#[trigger] s[j]).0
}

/// The ranges are not empty and no two share a byte.
pub open spec fn are_disjoint(s: Seq<Range>) -> bool {
    &&& forall|i: int| 0 <= i < s.len() ==> (#[trigger] s[i]).0 < s[i].1
    &&& forall|i: int, j: int|
        0 <= i < s.len() && 0 <= j < s.len() && i != j ==> (#[trigger] s[i]).1 <= (
        #[trigger] s[j]).0 || s[j].1 <= s[i].0
}

/// The lengths of the ranges, added up.
pub open spec fn total(s: Seq<Range>) -> int
    decreases s.len(),
{
    if s.len() == 0 {
        0
    } else {
        total(s.drop_last()) + (s.last().1 - s.last().0)
    }
}

/// `total` of two lists, one after the other.
pub proof fn lemma_total_concat(a: Seq<Range>, b: Seq<Range>)
    ensures
        total(a + b) == total(a) + total(b),
    decreases b.len(),
{
    if b.len() == 0 {
        assert(a + b =~= a);
    } else {
        assert((a + b).drop_last() =~= a + b.drop_last());
        lemma_total_concat(a, b.drop_last());
    }
}

/// `total` of a list with one more range.
pub proof fn lemma_total_push(a: Seq<Range>, r: Range)
    ensures
        total(a.push(r)) == total(a) + (r.1 - r.0),
{
    assert(a.push(r).drop_last() =~= a);
}

/// `total` of a list of one range.
pub proof fn lemma_total_single(r: Range)
    ensures
        total(seq![r]) == r.1 - r.0,
{
    reveal_with_fuel(total, 2);
    assert(seq![r].drop_last() =~= Seq::<Range>::empty());
}

/// `total` of a list from which the range at `i` is taken out.
pub proof fn lemma_total_remove(a: Seq<Range>, i: int)
    requires
        0 <= i < a.len(),
    ensures
        total(a.remove(i)) == total(a) - (a[i].1 - a[i].0),
{
    assert(a =~= a.take(i) + seq![a[i]] + a.skip(i + 1));
    assert(a.remove(i) =~= a.take(i) + a.skip(i + 1));
    lemma_total_concat(a.take(i) + seq![a[i]], a.skip(i + 1));
    lemma_total_concat(a.take(i), seq![a[i]]);
    lemma_total_concat(a.take(i), a.skip(i + 1));
    lemma_total_single(a[i]);
}

/// No list of non-empty ranges has a negative `total`.
pub proof fn lemma_total_nonnegative(a: Seq<Range>)
    requires
        forall|i: int| 0 <= i < a.len() ==> (#[trigger] a[i]).0 < a[i].1,
    ensures
        total(a) >= a.len(),
    decreases a.len(),
{
    if a.len() > 0 {
        lemma_total_nonnegative(a.drop_last());
    }
}

/// The bytes that the ranges cover.
pub open spec fn cover_set(s: Seq<Range>) -> Set<int> {
    Set::new(|x: int| covers(s, x))
}

/// `total` of a range list is the number of bytes that the list covers.
pub proof fn lemma_total_counts_covered_bytes(s: Seq<Range>)
    requires
        are_disjoint(s),
    ensures
        cover_set(s).finite(),
        cover_set(s).len() == total(s),
    decreases s.len(),
{
    if s.len() == 0 {
        assert(cover_set(s) =~= Set::<int>::empty());
    } else {
        let front = s.drop_last();
        let r = s.last();
        assert forall|i: int, j: int|
            0 <= i < front.len() && 0 <= j < front.len() && i != j implies (#[trigger] front[i]).1
            <= (#[trigger] front[j]).0 || front[j].1 <= front[i].0 by {
            assert(front[i] == s[i] && front[j] == s[j]);
        }
        lemma_total_counts_covered_bytes(front);
        let own = vstd::set_lib::set_int_range(r.0 as int, r.1 as int);
        vstd::set_lib::lemma_int_range(r.0 as int, r.1 as int);
        assert(cover_set(front).disjoint(own)) by {
            assert forall|x: int| cover_set(front).contains(x) implies !own.contains(x) by {
                let i = choose|i: int| 0 <= i < front.len() && in_range(#[trigger] front[i], x);
                assert(s[i] == front[i]);
                assert(s[s.len() - 1] == r);
            }
        }
        vstd::set_lib::lemma_set_disjoint_lens(cover_set(front), own);
        assert(cover_set(s) =~= cover_set(front).union(own)) by {
            assert forall|x: int| cover_set(s).contains(x) implies cover_set(front).union(
                own,
            ).contains(x) by {
                let i = choose|i: int| 0 <= i < s.len() && in_range(#[trigger] s[i], x);
                if i < front.len() {
                    assert(front[i] == s[i]);
                }
            }
            assert forall|x: int| cover_set(front).union(own).contains(x) implies cover_set(
                s,
            ).contains(x) by {
                if own.contains(x) {
                    assert(in_range(s[s.len() - 1], x));
                } else {
                    let i = choose|i: int| 0 <= i < front.len() && in_range(#[trigger] front[i], x);
                    assert(s[i] == front[i]);
                }
            }
        }
    }
}

/// The last range of `a` ends no later than that of `b`, where `b` covers all
/// that `a` covers.
proof fn lemma_last_end(a: Seq<Range>, b: Seq<Range>)
    requires
        is_range_list(a),
        is_range_list(b),
        a.len() > 0,
        forall|x: int| #[trigger] covers(a, x) ==> covers(b, x),
    ensures
        b.len() > 0,
        a.last().1 <= b.last().1,
{
    let x = a.last().1 - 1;
    assert(in_range(a[a.len() - 1], x));
    assert(covers(a, x));
    let i = choose|i: int| 0 <= i < b.len() && in_range(#[trigger] b[i], x);
    if i < b.len() - 1 {
        assert(b[i].1 < b[b.len() - 1].0);
    }
}

/// The last range of `a` starts no later than that of `b`, where both end at
/// the same byte and `a` covers all that `b` covers.
proof fn lemma_last_start(a: Seq<Range>, b: Seq<Range>)
    requires
        is_range_list(a),
        is_range_list(b),
        a.len() > 0,
        b.len() > 0,
        a.last().1 == b.last().1,
        forall|x: int| #[trigger] covers(b, x) ==> covers(a, x),
    ensures
        a.last().0 <= b.last().0,
{
    if b.last().0 < a.last().0 {
        let x = a.last().0 - 1;
        assert(in_range(b[b.len() - 1], x));
        assert(covers(b, x));
        let i = choose|i: int| 0 <= i < a.len() && in_range(#[trigger] a[i], x);
        if i < a.len() - 1 {
            assert(a[i].1 < a[a.len() - 1].0);
        }
    }
}

/// Without its last range a range list covers the bytes below that range.
proof fn lemma_front_covers(s: Seq<Range>, x: int)
    requires
        is_range_list(s),
        s.len() > 0,
    ensures
        is_range_list(s.drop_last()),
        covers(s.drop_last(), x) <==> covers(s, x) && x < s.last().0,
{
    let front = s.drop_last();
    if covers(front, x) {
        let i = choose|i: int| 0 <= i < front.len() && in_range(#[trigger] front[i], x);
        assert(s[i] == front[i]);
        assert(s[i].1 < s[s.len() - 1].0);
    }
    if covers(s, x) && x < s.last().0 {
        let i = choose|i: int| 0 <= i < s.len() && in_range(#[trigger] s[i], x);
        assert(s[i] == front[i]);
    }
}

/// A range list is determined by the bytes that it covers.
pub proof fn lemma_covered_bytes_determine_the_list(a: Seq<Range>, b: Seq<Range>)
    requires
        is_range_list(a),
        is_range_list(b),
        forall|x: int| #[trigger] covers(a, x) <==> covers(b, x),
    ensures
        a == b,
    decreases a.len(),
{
    if a.len() == 0 {
        if b.len() > 0 {
            lemma_last_end(b, a);
        }
        assert(a =~= b);
    } else {
        lemma_last_end(a, b);
        lemma_last_end(b, a);
        lemma_last_start(a, b);
        lemma_last_start(b, a);
        assert forall|x: int| #[trigger]
            covers(a.drop_last(), x) <==> covers(b.drop_last(), x) by {
            lemma_front_covers(a, x);
            lemma_front_covers(b, x);
        }
        lemma_front_covers(a, 0);
        lemma_front_covers(b, 0);
        lemma_covered_bytes_determine_the_list(a.drop_last(), b.drop_last());
        assert(a =~= a.drop_last().push(a.last()));
        assert(b =~= b.drop_last().push(b.last()));
    }
}

/// Insert `[start, end)` into a sorted, disjoint, non-adjacent range list,
/// merging overlap and adjacency; returns the number of newly covered bytes.
#[verifier::rlimit(40)]
pub fn merge_range(ranges: &mut Vec<Range>, start: u64, end: u64) -> (added: u64)
    requires
        is_range_list(old(ranges)@),
    ensures
        is_range_list(final(ranges)@),
        forall|x: int| #[trigger]
            covers(final(ranges)@, x) <==> covers(old(ranges)@, x) || start <= x < end,
        added == total(final(ranges)@) - total(old(ranges)@),
        added <= if start < end {
            end - start
        } else {
            0
        },
{
    if end <= start {
        return 0;
    }
    let ghost before = ranges@;
    let mut new_start: u64 = start;
    let mut new_end: u64 = end;
    let mut known: u64 = 0;
    let mut i: usize = 0;
    let ghost mut r: int = 0;
    assert(before.take(0) + before.skip(0) =~= before);
    while i < ranges.len()
        invariant_except_break
            i + r <= before.len(),
        invariant
            start < end,
            is_range_list(before),
            0 <= r,
            i + r <= before.len(),
            ranges@ == before.take(i as int) + before.skip(i + r),
            forall|k: int| 0 <= k < i ==> (#[trigger] before[k]).1 < new_start,
            new_start <= start,
            end <= new_end,
            known >= (new_end - end) + (start - new_start),
            r == 0 ==> new_start == start && new_end == end && known == 0,
            r > 0 ==> {
                &&& before[i as int].1 >= start
                &&& before[i + r - 1].0 <= end
                &&& new_start == if before[i as int].0 < start {
                    before[i as int].0
                } else {
                    start
                }
                &&& new_end == if before[i + r - 1].1 > end {
                    before[i + r - 1].1
                } else {
                    end
                }
                &&& known == total(before.subrange(i as int, i + r))
                &&& known <= before[i + r - 1].1 - before[i as int].0
            },
        ensures
            i + r < before.len() ==> before[i + r].0 > new_end,
        decreases before.len() - i - r,
    {
        let (s, e) = ranges[i];
        assert(before[i + r] == (s, e));
        if e < new_start {
            proof {
                if r > 0 {
                    assert(before[i as int].1 < before[i + r].0);
                    assert(false);
                }
                assert(before.take(i as int) + before.skip(i as int) =~= before.take(i + 1)
                    + before.skip(i + 1));
            }
            i += 1;
            continue ;
        }
        if s > new_end {
            break ;
        }
        proof {
            let mid = before.subrange(i as int, i + r);
            assert(before.subrange(i as int, i + r + 1) =~= mid.push(before[i + r]));
            lemma_total_push(mid, before[i + r]);
            if r > 0 {
                assert(before[i + r - 1].1 < before[i + r].0);
            } else {
                assert(mid =~= Seq::<Range>::empty());
            }
            assert(e - s >= 1);
        }
        if s < new_start {
            new_start = s;
        }
        if e > new_end {
            new_end = e;
        }
        known += e - s;
        ranges.remove(i);
        proof {
            assert(ranges@ =~= before.take(i as int) + before.skip(i + r + 1));
            r = r + 1;
        }
    }
    ranges.insert(i, (new_start, new_end));
    assert(ranges@ =~= before.take(i as int) + seq![(new_start, new_end)] + before.skip(i + r));
    assert(r == 0 ==> before.subrange(i as int, i + r) =~= Seq::<Range>::empty());
    proof {
        lemma_merged(before, ranges@, i as int, r, start, end, (new_start, new_end));
    }
    (new_end - new_start) - known
}

/// The ranges `before[i..i + r]` are those that overlap or touch `[start, end)`,
/// and `merged` is what they and `[start, end)` span.
spec fn spans(before: Seq<Range>, i: int, r: int, start: u64, end: u64, merged: Range) -> bool {
    &&& 0 <= i
    &&& 0 <= r
    &&& i + r <= before.len()
    &&& start < end
    &&& forall|k: int| 0 <= k < i ==> (#[trigger] before[k]).1 < merged.0
    &&& i + r < before.len() ==> before[i + r].0 > merged.1
    &&& r == 0 ==> merged == (start, end)
    &&& r > 0 ==> {
        &&& before[i].1 >= start
        &&& before[i + r - 1].0 <= end
        &&& merged.0 == if before[i].0 < start {
            before[i].0
        } else {
            start
        }
        &&& merged.1 == if before[i + r - 1].1 > end {
            before[i + r - 1].1
        } else {
            end
        }
    }
}

/// Putting `merged` in the place of the ranges that it spans keeps the list
/// sorted and adds the bytes of `[start, end)` to it.
proof fn lemma_merged(
    before: Seq<Range>,
    after: Seq<Range>,
    i: int,
    r: int,
    start: u64,
    end: u64,
    merged: Range,
)
    requires
        is_range_list(before),
        spans(before, i, r, start, end, merged),
        after == before.take(i) + seq![merged] + before.skip(i + r),
    ensures
        is_range_list(after),
        forall|x: int| #[trigger] covers(after, x) <==> covers(before, x) || start <= x < end,
        total(after) == total(before) - total(before.subrange(i, i + r)) + (merged.1 - merged.0),
{
    let head = before.take(i);
    let mid = before.subrange(i, i + r);
    let tail = before.skip(i + r);
    assert(before =~= head + mid + tail);
    lemma_total_concat(head + mid, tail);
    lemma_total_concat(head, mid);
    lemma_total_concat(head + seq![merged], tail);
    lemma_total_concat(head, seq![merged]);
    lemma_total_single(merged);
    assert forall|k: int| 0 <= k < after.len() && k != i implies #[trigger] after[k] == before[if k
        < i {
        k
    } else {
        k - 1 + r
    }] by {}
    assert(after[i] == merged);
    assert forall|a: int, b: int| 0 <= a < b < after.len() implies (#[trigger] after[a]).1 < (
    #[trigger] after[b]).0 by {
        if a == i {
            assert(before[i + r].0 <= before[b - 1 + r].0);
        }
    }
    assert forall|x: int| #[trigger] covers(after, x) <==> covers(before, x) || start <= x
        < end by {
        if covers(after, x) {
            let k = choose|k: int| 0 <= k < after.len() && in_range(#[trigger] after[k], x);
            if k < i {
                assert(in_range(before[k], x));
            } else if k > i {
                assert(in_range(before[k - 1 + r], x));
            } else if x < start {
                assert(in_range(before[i], x));
            } else if x >= end {
                assert(in_range(before[i + r - 1], x));
            }
        }
        if covers(before, x) {
            let k = choose|k: int| 0 <= k < before.len() && in_range(#[trigger] before[k], x);
            if k < i {
                assert(in_range(after[k], x));
            } else if k >= i + r {
                assert(in_range(after[k - r + 1], x));
            } else {
                assert(before[i].0 <= before[k].0);
                assert(before[k].1 <= before[i + r - 1].1);
                assert(in_range(after[i], x));
            }
        }
        if start <= x < end {
            assert(in_range(after[i], x));
        }
    }
}

} // verus!
