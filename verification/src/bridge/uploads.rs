//! Write-behind upload queue: writes land in the local cache, and a background
//! flusher streams the dirty ranges to the target with a bounded window of
//! bytes in flight.

use vstd::prelude::*;

use crate::bridge::ranges::{
    are_disjoint, covers, in_range, is_range_list, lemma_total_concat, lemma_total_nonnegative,
    lemma_total_push, lemma_total_remove, lemma_total_single, merge_range, total, Range,
};
use crate::path::{normal, normalized};
use crate::text::texts;

verus! {

/// Bytes of `WRITE_AT` payloads allowed in flight at once. Sized to cover a
/// bandwidth-delay product, so that the pipe never runs dry during a large
/// transfer.
pub const WRITE_WINDOW: u64 = 32 * 1024 * 1024;

/// Dirty bytes buffered locally before writers get backpressure.
pub const QUEUE_CAP: u64 = 96 * 1024 * 1024;

/// Maximum payload per `WRITE_AT` call.
pub const CHUNK_MAX: u64 = 4 * 1024 * 1024;

// ---------------------------------------------------------------------------
// Claiming the dirty ranges of one file
// ---------------------------------------------------------------------------

/// How many bytes of `r` go into one send with `w` bytes of window left.
pub open spec fn piece_len(r: Range, w: int) -> int {
    let n = if r.1 - r.0 < CHUNK_MAX {
        r.1 - r.0
    } else {
        CHUNK_MAX as int
    };
    if w < n {
        w
    } else {
        n
    }
}

/// The ranges `d` without the first `n` bytes of the first of them.
pub open spec fn rest_after(d: Seq<Range>, n: int) -> Seq<Range> {
    if d[0].0 + n < d[0].1 {
        d.update(0, ((d[0].0 + n) as u64, d[0].1))
    } else {
        d.drop_first()
    }
}

/// The pieces that are claimed of the dirty ranges `d`, front first, with `w`
/// bytes of window left.
pub open spec fn claimed(d: Seq<Range>, w: int) -> Seq<Range>
    decreases w,
{
    if d.len() == 0 || w <= 0 || piece_len(d[0], w) <= 0 {
        Seq::empty()
    } else {
        let n = piece_len(d[0], w);
        seq![(d[0].0, (d[0].0 + n) as u64)] + claimed(rest_after(d, n), w - n)
    }
}

/// The dirty ranges that stay behind when `claimed(d, w)` is taken of `d`.
pub open spec fn left_over(d: Seq<Range>, w: int) -> Seq<Range>
    decreases w,
{
    if d.len() == 0 || w <= 0 || piece_len(d[0], w) <= 0 {
        d
    } else {
        let n = piece_len(d[0], w);
        left_over(rest_after(d, n), w - n)
    }
}

/// Every range of the list is at most `CHUNK_MAX` long.
pub open spec fn in_chunks(s: Seq<Range>) -> bool {
    forall|i: int| 0 <= i < s.len() ==> (#[trigger] s[i]).1 - s[i].0 <= CHUNK_MAX
}

/// Taking the first `n` bytes of the first range splits the covered bytes in two.
proof fn lemma_rest_after(d: Seq<Range>, n: int)
    requires
        is_range_list(d),
        d.len() > 0,
        0 < n <= d[0].1 - d[0].0,
    ensures
        is_range_list(rest_after(d, n)),
        total(rest_after(d, n)) == total(d) - n,
        forall|x: int| #[trigger]
            covers(d, x) <==> covers(rest_after(d, n), x) || d[0].0 <= x < d[0].0 + n,
        forall|x: int| #[trigger] covers(rest_after(d, n), x) ==> x >= d[0].0 + n,
{
    let rest = rest_after(d, n);
    let first = d[0];
    let tail = d.drop_first();
    assert(d =~= seq![first] + tail);
    lemma_total_concat(seq![first], tail);
    lemma_total_single(first);
    if first.0 + n < first.1 {
        let cut = ((first.0 + n) as u64, first.1);
        assert(rest =~= seq![cut] + tail);
        lemma_total_concat(seq![cut], tail);
        lemma_total_single(cut);
        assert forall|i: int, j: int| 0 <= i < j < rest.len() implies (#[trigger] rest[i]).1 < (
        #[trigger] rest[j]).0 by {
            assert(d[i].1 < d[j].0);
        }
    } else {
        assert(rest =~= tail);
        assert forall|i: int, j: int| 0 <= i < j < rest.len() implies (#[trigger] rest[i]).1 < (
        #[trigger] rest[j]).0 by {
            assert(d[i + 1].1 < d[j + 1].0);
        }
    }
    assert forall|x: int| #[trigger] covers(rest, x) implies x >= first.0 + n && covers(d, x) by {
        let i = choose|i: int| 0 <= i < rest.len() && in_range(#[trigger] rest[i], x);
        if first.0 + n < first.1 {
            assert(in_range(d[i], x));
            if i > 0 {
                assert(d[0].1 < d[i].0);
            }
        } else {
            assert(in_range(d[i + 1], x));
            assert(d[0].1 < d[i + 1].0);
        }
    }
    assert forall|x: int| #[trigger] covers(d, x) <==> covers(rest, x) || first.0 <= x < first.0
        + n by {
        if covers(d, x) {
            let i = choose|i: int| 0 <= i < d.len() && in_range(#[trigger] d[i], x);
            if x >= first.0 + n {
                if first.0 + n < first.1 {
                    assert(in_range(rest[i], x));
                } else {
                    assert(i > 0);
                    assert(in_range(rest[i - 1], x));
                }
            } else if i > 0 {
                assert(d[0].1 < d[i].0);
            }
        }
        if first.0 <= x < first.0 + n {
            assert(in_range(d[0], x));
        }
    }
}

/// What is claimed and what stays behind are the dirty bytes, each once; the
/// claim is bounded by the window, and uses it up unless nothing stays behind.
pub proof fn lemma_claim_splits(d: Seq<Range>, w: int)
    requires
        is_range_list(d),
        0 <= w,
    ensures
        is_range_list(left_over(d, w)),
        are_disjoint(claimed(d, w)),
        in_chunks(claimed(d, w)),
        total(claimed(d, w)) + total(left_over(d, w)) == total(d),
        0 <= total(claimed(d, w)) <= w,
        left_over(d, w).len() > 0 ==> total(claimed(d, w)) == w,
        forall|x: int| #[trigger]
            covers(d, x) <==> covers(claimed(d, w), x) || covers(left_over(d, w), x),
        forall|x: int| !(#[trigger] covers(claimed(d, w), x) && covers(left_over(d, w), x)),
        d.len() > 0 ==> forall|x: int| #[trigger] covers(claimed(d, w), x) ==> x >= d[0].0,
    decreases w,
{
    let pieces = claimed(d, w);
    let left = left_over(d, w);
    if d.len() == 0 || w <= 0 || piece_len(d[0], w) <= 0 {
        assert(pieces =~= Seq::<Range>::empty());
        assert(forall|x: int| !covers(pieces, x));
    } else {
        let n = piece_len(d[0], w);
        let rest = rest_after(d, n);
        let piece = (d[0].0, (d[0].0 + n) as u64);
        lemma_rest_after(d, n);
        lemma_claim_splits(rest, w - n);
        let more = claimed(rest, w - n);
        assert(pieces =~= seq![piece] + more);
        lemma_total_concat(seq![piece], more);
        lemma_total_single(piece);
        assert forall|x: int| #[trigger] covers(pieces, x) <==> in_range(piece, x) || covers(
            more,
            x,
        ) by {
            if covers(pieces, x) {
                let i = choose|i: int| 0 <= i < pieces.len() && in_range(#[trigger] pieces[i], x);
                if i > 0 {
                    assert(in_range(more[i - 1], x));
                }
            }
            if in_range(piece, x) {
                assert(in_range(pieces[0], x));
            }
            if covers(more, x) {
                let i = choose|i: int| 0 <= i < more.len() && in_range(#[trigger] more[i], x);
                assert(in_range(pieces[i + 1], x));
            }
        }
        assert forall|i: int| 0 <= i < more.len() implies piece.1 <= (#[trigger] more[i]).0 by {
            assert(in_range(more[i], more[i].0 as int));
            assert(covers(more, more[i].0 as int));
            assert(covers(rest, more[i].0 as int));
        }
        assert forall|i: int, j: int|
            0 <= i < pieces.len() && 0 <= j < pieces.len() && i != j implies (
        #[trigger] pieces[i]).1 <= (#[trigger] pieces[j]).0 || pieces[j].1 <= pieces[i].0 by {
            if i > 0 && j > 0 {
                assert(pieces[i] == more[i - 1] && pieces[j] == more[j - 1]);
            } else if i > 0 {
                assert(pieces[i] == more[i - 1]);
            } else {
                assert(pieces[j] == more[j - 1]);
            }
        }
        assert forall|i: int| 0 <= i < pieces.len() implies (#[trigger] pieces[i]).0 < pieces[i].1
            && pieces[i].1 - pieces[i].0 <= CHUNK_MAX by {
            if i > 0 {
                assert(pieces[i] == more[i - 1]);
            }
        }
        assert forall|x: int| !(#[trigger] covers(pieces, x) && covers(left, x)) by {
            if in_range(piece, x) && covers(left, x) {
                assert(covers(rest, x));
            }
        }
        assert forall|x: int| #[trigger] covers(d, x) <==> covers(pieces, x) || covers(left, x) by {
            assert(covers(d, x) <==> covers(rest, x) || d[0].0 <= x < d[0].0 + n);
            assert(covers(rest, x) <==> covers(more, x) || covers(left, x));
        }
        assert forall|x: int| #[trigger] covers(pieces, x) implies x >= d[0].0 by {
            if covers(more, x) {
                assert(covers(rest, x));
            }
        }
    }
}

// ---------------------------------------------------------------------------
// The queue
// ---------------------------------------------------------------------------

/// Outcome of one background `WRITE_AT` send.
#[derive(Clone, Copy, PartialEq, Eq, Structural, Debug)]
pub enum SendOutcome {
    /// Acknowledged by the target.
    Sent,
    /// Transient failure (offline/timeout): requeue with backoff.
    Retry,
    /// Permanent target-side failure (file gone/unwritable): drop, surface
    /// the error to any waiting drain.
    Drop,
}

/// How a drain stands.
#[derive(Clone, Copy, PartialEq, Eq, Structural, Debug)]
pub enum DrainStatus {
    /// Nothing is pending for the paths.
    Drained,
    /// A send failed, or time ran out.
    Failed,
    /// Data is still on its way.
    Waiting,
}

/// The pending data of one remote path.
pub struct FileUploads {
    /// The shortest text of the path, by which it is found.
    path: String,
    /// The text by which the first of the dirty bytes was queued.
    name: String,
    /// Dirty ranges: sorted, disjoint, non-adjacent.
    dirty: Vec<Range>,
    /// Ranges currently inside a `WRITE_AT` call.
    inflight: Vec<Range>,
    /// New dirty ranges overlap in-flight sends: uploads pause until those
    /// sends land, which preserves byte order for rewrites.
    blocked: bool,
}

/// The pending data of one remote path, as a mathematical value.
#[verifier::ext_equal]
pub struct FileView {
    pub path: Seq<char>,
    pub name: Seq<char>,
    pub dirty: Seq<Range>,
    pub inflight: Seq<Range>,
    pub blocked: bool,
}

impl View for FileUploads {
    type V = FileView;

    closed spec fn view(&self) -> FileView {
        FileView {
            path: self.path@,
            name: self.name@,
            dirty: self.dirty@,
            inflight: self.inflight@,
            blocked: self.blocked,
        }
    }
}

/// Write-behind upload queue. Times are milliseconds of one clock.
pub struct UploadQueue {
    files: Vec<FileUploads>,
    dirty_bytes: u64,
    inflight_bytes: u64,
    /// Monotonic failed-send counter; drains snapshot it to detect errors.
    errors: u64,
    /// The flusher pauses until this time after a failed send.
    retry_after: u64,
    backoff_ms: u64,
}

/// The queue as a mathematical value: the files with pending data, in the
/// order in which they are served, and the counters.
#[verifier::ext_equal]
pub struct QueueView {
    pub files: Seq<FileView>,
    pub dirty_bytes: int,
    pub inflight_bytes: int,
    pub errors: int,
    pub retry_after: int,
    pub backoff_ms: int,
}

impl View for UploadQueue {
    type V = QueueView;

    closed spec fn view(&self) -> QueueView {
        QueueView {
            files: self.files@.map_values(|f: FileUploads| f@),
            dirty_bytes: self.dirty_bytes as int,
            inflight_bytes: self.inflight_bytes as int,
            errors: self.errors as int,
            retry_after: self.retry_after as int,
            backoff_ms: self.backoff_ms as int,
        }
    }
}

/// `a + b + ...`
pub open spec fn sum(s: Seq<int>) -> int
    decreases s.len(),
{
    if s.len() == 0 {
        0
    } else {
        sum(s.drop_last()) + s.last()
    }
}

/// How many bytes are dirty in each file.
pub open spec fn dirty_sizes(files: Seq<FileView>) -> Seq<int> {
    files.map_values(|f: FileView| total(f.dirty))
}

/// How many bytes are in flight in each file.
pub open spec fn inflight_sizes(files: Seq<FileView>) -> Seq<int> {
    files.map_values(|f: FileView| total(f.inflight))
}

/// No path stands in the list twice.
pub open spec fn are_distinct(files: Seq<FileView>) -> bool {
    forall|i: int, j: int|
        0 <= i < j < files.len() ==> (#[trigger] files[i]).path != (#[trigger] files[j]).path
}

/// Some byte of `[start, end)` lies in one of the ranges.
pub open spec fn overlaps(s: Seq<Range>, start: u64, end: u64) -> bool {
    exists|i: int| 0 <= i < s.len() && start < (#[trigger] s[i]).1 && s[i].0 < end
}

impl FileView {
    /// What always holds of the pending data of one file: the dirty ranges are
    /// a range list, the sends in flight share no byte and fit into one call
    /// each, a file without pending data is not kept, only a file with sends in
    /// flight is blocked, and unless it is blocked no dirty byte is in flight.
    /// The name under which it is sent is a text of its path.
    pub open spec fn inv(self) -> bool {
        &&& normal(self.name) == self.path
        &&& is_range_list(self.dirty)
        &&& are_disjoint(self.inflight)
        &&& in_chunks(self.inflight)
        &&& self.dirty.len() > 0 || self.inflight.len() > 0
        &&& self.blocked ==> self.inflight.len() > 0
        &&& !self.blocked ==> forall|x: int| !(#[trigger] covers(self.dirty, x) && covers(
            self.inflight,
            x,
        ))
    }

    /// The file once `claimed(self.dirty, w)` is handed out for sending.
    pub open spec fn after_claim(self, w: int) -> FileView {
        FileView {
            dirty: left_over(self.dirty, w),
            inflight: self.inflight + claimed(self.dirty, w),
            ..self
        }
    }
}

impl QueueView {
    /// What always holds of the queue: each path stands in it once, the
    /// counters are the sums over the files, and the bytes in flight stay
    /// within the window.
    pub open spec fn inv(self) -> bool {
        &&& forall|i: int| 0 <= i < self.files.len() ==> (#[trigger] self.files[i]).inv()
        &&& are_distinct(self.files)
        &&& self.dirty_bytes == sum(dirty_sizes(self.files))
        &&& self.inflight_bytes == sum(inflight_sizes(self.files))
        &&& 0 <= self.inflight_bytes <= WRITE_WINDOW
        &&& 0 <= self.dirty_bytes
        &&& self.dirty_bytes + self.inflight_bytes <= u64::MAX
        &&& 0 <= self.backoff_ms <= 2000
    }

    /// Where `path` stands in the queue, or -1.
    pub open spec fn slot(self, path: Seq<char>) -> int {
        if exists|i: int| 0 <= i < self.files.len() && (#[trigger] self.files[i]).path == path {
            choose|i: int| 0 <= i < self.files.len() && (#[trigger] self.files[i]).path == path
        } else {
            -1
        }
    }

    /// The dirty ranges of `path`.
    pub open spec fn dirty(self, path: Seq<char>) -> Seq<Range> {
        if self.slot(path) >= 0 {
            self.files[self.slot(path)].dirty
        } else {
            Seq::empty()
        }
    }

    /// The ranges of `path` that are in flight.
    pub open spec fn inflight(self, path: Seq<char>) -> Seq<Range> {
        if self.slot(path) >= 0 {
            self.files[self.slot(path)].inflight
        } else {
            Seq::empty()
        }
    }

    /// The text of `path` under which its dirty bytes are sent.
    pub open spec fn name(self, path: Seq<char>) -> Seq<char> {
        if self.slot(path) >= 0 {
            self.files[self.slot(path)].name
        } else {
            Seq::empty()
        }
    }

    /// `path` waits for its sends in flight to land.
    pub open spec fn blocked(self, path: Seq<char>) -> bool {
        self.slot(path) >= 0 && self.files[self.slot(path)].blocked
    }

    /// Byte `x` of `path` has not been acknowledged yet.
    pub open spec fn pending(self, path: Seq<char>, x: int) -> bool {
        covers(self.dirty(path), x) || covers(self.inflight(path), x)
    }

    /// Nothing changed but what belongs to `path` and the counters.
    pub open spec fn same_but(self, other: QueueView, path: Seq<char>) -> bool {
        forall|p: Seq<char>|
            #![trigger self.dirty(p)]
            #![trigger self.inflight(p)]
            #![trigger self.blocked(p)]
            #![trigger self.name(p)]
            p != path ==> self.dirty(p) == other.dirty(p) && self.inflight(p) == other.inflight(p)
                && self.blocked(p) == other.blocked(p) && self.name(p) == other.name(p)
    }
}

// ---------------------------------------------------------------------------
// The steps of the queue
// ---------------------------------------------------------------------------

impl QueueView {
    /// The dirty bytes of `path` are sent under the text by which the first of
    /// them was queued.
    pub open spec fn keeps_name(self, after: QueueView, path: Seq<char>) -> bool {
        let key = normal(path);
        after.dirty(key).len() > 0 ==> after.name(key) == if self.dirty(key).len() == 0 {
            path
        } else {
            self.name(key)
        }
    }

    /// `after` is this queue once `[start, end)` of `path` is dirty: the path
    /// is blocked when a send in flight overlaps the new bytes.
    pub open spec fn enqueued(self, after: QueueView, path: Seq<char>, start: u64, end: u64) -> bool {
        let key = normal(path);
        &&& end <= start ==> after == self
        &&& after.same_but(self, key)
        &&& forall|x: int| #[trigger]
            covers(after.dirty(key), x) <==> covers(self.dirty(key), x) || start <= x < end
        &&& after.inflight(key) == self.inflight(key)
        &&& start < end ==> after.blocked(key) == (self.blocked(key) || overlaps(
            self.inflight(key),
            start,
            end,
        ))
        &&& start < end ==> self.keeps_name(after, path)
        &&& after.inflight_bytes == self.inflight_bytes
        &&& after.errors == self.errors
        &&& after.retry_after == self.retry_after
        &&& after.backoff_ms == self.backoff_ms
    }

    /// `after` is this queue once `batch` is handed out at the time `now`:
    /// nothing during a backoff, else what the window has room for, file by
    /// file, passing over the blocked ones.
    pub open spec fn handed_out(
        self,
        after: QueueView,
        batch: Seq<(Seq<char>, Range)>,
        now: int,
    ) -> bool {
        let w = WRITE_WINDOW - self.inflight_bytes;
        &&& now < self.retry_after ==> batch.len() == 0 && after == self
        &&& now >= self.retry_after ==> batch == batch_upto(self.files, w, self.files.len() as int)
        &&& now >= self.retry_after ==> after.files == files_after(self.files, w)
        &&& after.errors == self.errors
        &&& after.retry_after == self.retry_after
        &&& after.backoff_ms == self.backoff_ms
    }

    /// What an outcome does to the counters at the time `now`: a failure is
    /// counted, a transient one lengthens the backoff, and success ends it.
    pub open spec fn recorded(self, after: QueueView, outcome: SendOutcome, now: int) -> bool {
        &&& after.errors == self.errors + if outcome == SendOutcome::Sent {
            0int
        } else {
            1
        }
        &&& after.backoff_ms == match outcome {
            SendOutcome::Sent => 0,
            SendOutcome::Retry => next_backoff(self.backoff_ms),
            SendOutcome::Drop => self.backoff_ms,
        }
        &&& after.retry_after == match outcome {
            SendOutcome::Sent => now,
            SendOutcome::Retry => now + next_backoff(self.backoff_ms),
            SendOutcome::Drop => self.retry_after,
        }
    }

    /// `after` is this queue once the send of `range` of `path` has ended with
    /// `outcome` at the time `now`: it is no longer in flight, a transient
    /// failure makes its bytes dirty again, and the path is free when nothing of
    /// it is in flight.
    pub open spec fn landed(
        self,
        after: QueueView,
        path: Seq<char>,
        range: Range,
        outcome: SendOutcome,
        now: int,
    ) -> bool {
        let key = normal(path);
        &&& after.same_but(self, key)
        &&& exists|k: int|
            0 <= k < self.inflight(key).len() && #[trigger] self.inflight(key)[k] == range
                && after.inflight(key) == self.inflight(key).remove(k)
        &&& outcome != SendOutcome::Retry ==> after.dirty(key) == self.dirty(key)
        &&& forall|x: int| #[trigger]
            covers(after.dirty(key), x) <==> covers(self.dirty(key), x) || outcome
                == SendOutcome::Retry && in_range(range, x)
        &&& after.blocked(key) == (self.blocked(key) && after.inflight(key).len() > 0)
        &&& self.keeps_name(after, path)
        &&& self.recorded(after, outcome, now)
    }

    /// `after` is this queue once an outcome was reported for `range` of `path`,
    /// of which no send is in flight: it counts, and after a transient failure
    /// the bytes are dirty as if they had been written, but nothing lands.
    pub open spec fn strayed(
        self,
        after: QueueView,
        path: Seq<char>,
        range: Range,
        outcome: SendOutcome,
        now: int,
    ) -> bool {
        let key = normal(path);
        let again = outcome == SendOutcome::Retry && range.0 < range.1;
        &&& !again ==> after.files == self.files
        &&& after.same_but(self, key)
        &&& after.inflight(key) == self.inflight(key)
        &&& after.inflight_bytes == self.inflight_bytes
        &&& forall|x: int| #[trigger]
            covers(after.dirty(key), x) <==> covers(self.dirty(key), x) || again && in_range(
                range,
                x,
            )
        &&& after.blocked(key) == (self.blocked(key) || again && overlaps(
            self.inflight(key),
            range.0,
            range.1,
        ))
        &&& again ==> self.keeps_name(after, path)
        &&& self.recorded(after, outcome, now)
    }
}

/// The pause after another failed send: doubled each time, from 200 to 2000
/// milliseconds.
pub open spec fn next_backoff(backoff_ms: int) -> int {
    let doubled = 2 * if backoff_ms < 100 {
        100
    } else {
        backoff_ms
    };
    if doubled < 2000 {
        doubled
    } else {
        2000
    }
}

/// `sum` of a list with one more number.
proof fn lemma_sum_push(s: Seq<int>, x: int)
    ensures
        sum(s.push(x)) == sum(s) + x,
{
    assert(s.push(x).drop_last() =~= s);
}

/// `sum` of a list in which the number at `i` is replaced.
proof fn lemma_sum_update(s: Seq<int>, i: int, x: int)
    requires
        0 <= i < s.len(),
    ensures
        sum(s.update(i, x)) == sum(s) - s[i] + x,
    decreases s.len(),
{
    let t = s.update(i, x);
    if i == s.len() - 1 {
        assert(t.drop_last() =~= s.drop_last());
    } else {
        assert(t.drop_last() =~= s.drop_last().update(i, x));
        lemma_sum_update(s.drop_last(), i, x);
    }
}

/// `sum` of a list from which the number at `i` is taken out.
proof fn lemma_sum_remove(s: Seq<int>, i: int)
    requires
        0 <= i < s.len(),
    ensures
        sum(s.remove(i)) == sum(s) - s[i],
    decreases s.len(),
{
    let t = s.remove(i);
    if i == s.len() - 1 {
        assert(t =~= s.drop_last());
    } else {
        assert(t.drop_last() =~= s.drop_last().remove(i));
        lemma_sum_remove(s.drop_last(), i);
    }
}

/// A sum of numbers that are not negative is at least each of them.
proof fn lemma_sum_at_least(s: Seq<int>, i: int)
    requires
        0 <= i < s.len(),
        forall|k: int| 0 <= k < s.len() ==> #[trigger] s[k] >= 0,
    ensures
        s[i] <= sum(s),
        0 <= sum(s),
    decreases s.len(),
{
    if s.len() > 1 {
        if i < s.len() - 1 {
            lemma_sum_at_least(s.drop_last(), i);
        } else {
            lemma_sum_at_least(s.drop_last(), 0);
        }
    } else {
        reveal_with_fuel(sum, 2);
    }
}

/// In a queue where each path stands once, a file's slot is its position.
proof fn lemma_slot(v: QueueView, i: int)
    requires
        are_distinct(v.files),
        0 <= i < v.files.len(),
    ensures
        v.slot(v.files[i].path) == i,
{
    let p = v.files[i].path;
    assert(v.files[i].path == p);
    let k = v.slot(p);
    assert(0 <= k < v.files.len() && v.files[k].path == p);
}

/// A path that no file has is found nowhere.
proof fn lemma_no_slot(v: QueueView, p: Seq<char>)
    requires
        forall|i: int| 0 <= i < v.files.len() ==> (#[trigger] v.files[i]).path != p,
    ensures
        v.slot(p) == -1,
{
}

/// Every path is found at its position, or stands nowhere.
proof fn lemma_slot_cases(v: QueueView, p: Seq<char>)
    requires
        are_distinct(v.files),
    ensures
        v.slot(p) >= 0 ==> v.slot(p) < v.files.len() && v.files[v.slot(p)].path == p,
        v.slot(p) < 0 ==> v.slot(p) == -1 && forall|i: int|
            0 <= i < v.files.len() ==> (#[trigger] v.files[i]).path != p,
{
}

/// A file takes the place of one with the same path.
proof fn lemma_replace(v: QueueView, w: QueueView, i: int, f: FileView)
    requires
        are_distinct(v.files),
        0 <= i < v.files.len(),
        f.path == v.files[i].path,
        w.files == v.files.update(i, f),
    ensures
        are_distinct(w.files),
        w.same_but(v, f.path),
        v.slot(f.path) == i,
        w.slot(f.path) == i,
        sum(dirty_sizes(w.files)) == sum(dirty_sizes(v.files)) - total(v.files[i].dirty) + total(
            f.dirty,
        ),
        sum(inflight_sizes(w.files)) == sum(inflight_sizes(v.files)) - total(v.files[i].inflight)
            + total(f.inflight),
{
    assert forall|a: int, b: int| 0 <= a < b < w.files.len() implies (#[trigger] w.files[a]).path
        != (#[trigger] w.files[b]).path by {
        assert(v.files[a].path != v.files[b].path);
    }
    lemma_slot(v, i);
    lemma_slot(w, i);
    assert forall|p: Seq<char>| p != f.path implies v.slot(p) == w.slot(p) by {
        lemma_slot_cases(v, p);
        lemma_slot_cases(w, p);
        if v.slot(p) >= 0 {
            assert(w.files[v.slot(p)].path == p);
            lemma_slot(w, v.slot(p));
        } else if w.slot(p) >= 0 {
            assert(v.files[w.slot(p)].path == p);
        }
    }
    assert(dirty_sizes(w.files) =~= dirty_sizes(v.files).update(i, total(f.dirty)));
    assert(inflight_sizes(w.files) =~= inflight_sizes(v.files).update(i, total(f.inflight)));
    lemma_sum_update(dirty_sizes(v.files), i, total(f.dirty));
    lemma_sum_update(inflight_sizes(v.files), i, total(f.inflight));
}

/// A file with a new path joins at the end.
proof fn lemma_append(v: QueueView, w: QueueView, f: FileView)
    requires
        are_distinct(v.files),
        forall|i: int| 0 <= i < v.files.len() ==> (#[trigger] v.files[i]).path != f.path,
        w.files == v.files.push(f),
    ensures
        are_distinct(w.files),
        w.same_but(v, f.path),
        v.slot(f.path) == -1,
        w.slot(f.path) == v.files.len(),
        sum(dirty_sizes(w.files)) == sum(dirty_sizes(v.files)) + total(f.dirty),
        sum(inflight_sizes(w.files)) == sum(inflight_sizes(v.files)) + total(f.inflight),
{
    assert forall|a: int, b: int| 0 <= a < b < w.files.len() implies (#[trigger] w.files[a]).path
        != (#[trigger] w.files[b]).path by {
        assert(w.files[a] == v.files[a]);
        if b < v.files.len() {
            assert(w.files[b] == v.files[b]);
        }
    }
    lemma_slot(w, v.files.len() as int);
    assert forall|p: Seq<char>| p != f.path implies v.slot(p) == w.slot(p) by {
        lemma_slot_cases(v, p);
        lemma_slot_cases(w, p);
        if v.slot(p) >= 0 {
            assert(w.files[v.slot(p)].path == p);
            lemma_slot(w, v.slot(p));
        } else if w.slot(p) >= 0 {
            assert(v.files[w.slot(p)].path == p);
        }
    }
    assert(dirty_sizes(w.files) =~= dirty_sizes(v.files).push(total(f.dirty)));
    assert(inflight_sizes(w.files) =~= inflight_sizes(v.files).push(total(f.inflight)));
    lemma_sum_push(dirty_sizes(v.files), total(f.dirty));
    lemma_sum_push(inflight_sizes(v.files), total(f.inflight));
}

/// The file at `i` leaves.
proof fn lemma_leave(v: QueueView, w: QueueView, i: int)
    requires
        are_distinct(v.files),
        0 <= i < v.files.len(),
        w.files == v.files.remove(i),
    ensures
        are_distinct(w.files),
        w.same_but(v, v.files[i].path),
        v.slot(v.files[i].path) == i,
        w.slot(v.files[i].path) == -1,
        sum(dirty_sizes(w.files)) == sum(dirty_sizes(v.files)) - total(v.files[i].dirty),
        sum(inflight_sizes(w.files)) == sum(inflight_sizes(v.files)) - total(v.files[i].inflight),
{
    let path = v.files[i].path;
    assert forall|a: int| 0 <= a < w.files.len() implies #[trigger] w.files[a] == v.files[if a < i {
        a
    } else {
        a + 1
    }] by {}
    assert(are_distinct(w.files));
    lemma_slot(v, i);
    lemma_no_slot(w, path);
    assert forall|p: Seq<char>| p != path implies v.dirty(p) == w.dirty(p) && v.inflight(p)
        == w.inflight(p) && v.blocked(p) == w.blocked(p) && v.name(p) == w.name(p) by {
        lemma_slot_cases(v, p);
        lemma_slot_cases(w, p);
        if v.slot(p) >= 0 {
            let k = v.slot(p);
            let m = if k < i {
                k
            } else {
                k - 1
            };
            assert(w.files[m] == v.files[k]);
            lemma_slot(w, m);
        } else if w.slot(p) >= 0 {
            let m = w.slot(p);
            assert(v.files[if m < i {
                m
            } else {
                m + 1
            }].path == p);
        }
    }
    assert(dirty_sizes(w.files) =~= dirty_sizes(v.files).remove(i));
    assert(inflight_sizes(w.files) =~= inflight_sizes(v.files).remove(i));
    lemma_sum_remove(dirty_sizes(v.files), i);
    lemma_sum_remove(inflight_sizes(v.files), i);
}

impl FileUploads {
    /// Adds `[start, end)` to the dirty ranges; returns the newly dirty bytes.
    fn add_dirty(&mut self, start: u64, end: u64) -> (added: u64)
        requires
            is_range_list(old(self)@.dirty),
        ensures
            is_range_list(final(self)@.dirty),
            forall|x: int| #[trigger]
                covers(final(self)@.dirty, x) <==> covers(old(self)@.dirty, x) || start <= x < end,
            added == total(final(self)@.dirty) - total(old(self)@.dirty),
            added <= if start < end {
                end - start
            } else {
                0
            },
            final(self)@.path == old(self)@.path,
            final(self)@.name == old(self)@.name,
            final(self)@.inflight == old(self)@.inflight,
            final(self)@.blocked == old(self)@.blocked,
    {
        merge_range(&mut self.dirty, start, end)
    }

    /// Whether a send in flight shares a byte with `[start, end)`.
    fn meets_inflight(&self, start: u64, end: u64) -> (res: bool)
        ensures
            res == overlaps(self@.inflight, start, end),
    {
        let mut i: usize = 0;
        while i < self.inflight.len()
            invariant
                i <= self.inflight@.len(),
                forall|k: int|
                    0 <= k < i ==> !(start < (#[trigger] self.inflight@[k]).1
                        && self.inflight@[k].0 < end),
            decreases self.inflight@.len() - i,
        {
            let (s, e) = self.inflight[i];
            if start < e && s < end {
                assert(self@.inflight[i as int] == (s, e));
                return true;
            }
            i += 1;
        }
        false
    }
}

impl UploadQueue {
    /// An empty queue.
    pub fn new() -> (res: Self)
        ensures
            res@.inv(),
            res@.files == Seq::<FileView>::empty(),
            res@.dirty_bytes == 0,
            res@.inflight_bytes == 0,
            res@.errors == 0,
            res@.retry_after == 0,
            res@.backoff_ms == 0,
    {
        let res = UploadQueue {
            files: Vec::new(),
            dirty_bytes: 0,
            inflight_bytes: 0,
            errors: 0,
            retry_after: 0,
            backoff_ms: 0,
        };
        assert(res@.files =~= Seq::<FileView>::empty());
        res
    }

    /// Where `path` stands in the queue.
    fn find(&self, path: &str) -> (res: Option<usize>)
        ensures
            match res {
                Some(i) => i < self@.files.len() && self@.files[i as int].path == path@,
                None => forall|i: int|
                    0 <= i < self@.files.len() ==> (#[trigger] self@.files[i]).path != path@,
            },
    {
        let mut i: usize = 0;
        while i < self.files.len()
            invariant
                i <= self.files@.len(),
                forall|k: int| 0 <= k < i ==> (#[trigger] self@.files[k]).path != path@,
            decreases self.files@.len() - i,
        {
            assert(self@.files[i as int] == self.files@[i as int]@);
            if *self.files[i].path.as_str() == *path {
                return Some(i);
            }
            i += 1;
        }
        None
    }

    /// Queue `[start, end)` for upload, ordering against overlapping in-flight
    /// sends.
    pub fn enqueue(&mut self, path: &str, start: u64, end: u64)
        requires
            old(self)@.inv(),
            start < end ==> old(self)@.dirty_bytes + old(self)@.inflight_bytes + (end - start)
                <= u64::MAX,
        ensures
            final(self)@.inv(),
            old(self)@.enqueued(final(self)@, path@, start, end),
    {
        if end <= start {
            return ;
        }
        let key = normalized(path);
        match self.find(key.as_str()) {
            Some(i) => {
                let ghost before = self@;
                let ghost was = self.files@[i as int]@;
                assert(before.files[i as int] == was);
                let meets = self.files[i].meets_inflight(start, end);
                if self.files[i].dirty.len() == 0 {
                    self.files[i].name = path.to_owned();
                }
                let added = self.files[i].add_dirty(start, end);
                if meets {
                    self.files[i].blocked = true;
                }
                self.dirty_bytes = self.dirty_bytes + added;
                proof {
                    let now = self.files@[i as int]@;
                    assert(self@.files =~= before.files.update(i as int, now));
                    lemma_replace(before, self@, i as int, now);
                    lemma_still_apart(was, now, start, end);
                }
            },
            None => {
                let ghost before = self@;
                let mut file = FileUploads {
                    path: key,
                    name: path.to_owned(),
                    dirty: Vec::new(),
                    inflight: Vec::new(),
                    blocked: false,
                };
                let added = file.add_dirty(start, end);
                let ghost now = file@;
                self.files.push(file);
                self.dirty_bytes = self.dirty_bytes + added;
                proof {
                    assert(self@.files =~= before.files.push(now));
                    lemma_append(before, self@, now);
                    assert(covers(now.dirty, start as int));
                    assert(now.inv());
                }
            },
        }
    }
}

/// Bytes that are marked dirty while no send of them is in flight, or in a
/// file that is blocked, keep the file in order.
proof fn lemma_still_apart(was: FileView, now: FileView, start: u64, end: u64)
    requires
        was.inv(),
        start < end,
        normal(now.name) == now.path,
        is_range_list(now.dirty),
        forall|x: int| #[trigger]
            covers(now.dirty, x) <==> covers(was.dirty, x) || start <= x < end,
        now.inflight == was.inflight,
        now.blocked == (was.blocked || overlaps(was.inflight, start, end)),
    ensures
        now.inv(),
{
    assert(covers(now.dirty, start as int));
    assert(now.dirty.len() > 0);
    if !now.blocked {
        assert forall|x: int| !(#[trigger] covers(now.dirty, x) && covers(now.inflight, x)) by {
            if covers(now.inflight, x) && start <= x < end {
                let i = choose|i: int|
                    0 <= i < now.inflight.len() && in_range(#[trigger] now.inflight[i], x);
                assert(start < was.inflight[i].1 && was.inflight[i].0 < end);
            }
        }
    }
}

// ---------------------------------------------------------------------------
// Handing out work
// ---------------------------------------------------------------------------

/// The shortest texts of paths, by which the queue knows them.
pub open spec fn normals(paths: Seq<Seq<char>>) -> Seq<Seq<char>> {
    paths.map_values(|p: Seq<char>| normal(p))
}

/// A batch of sends by path and range.
pub open spec fn batch_view(batch: Seq<(String, Range)>) -> Seq<(Seq<char>, Range)> {
    batch.map_values(|b: (String, Range)| (b.0@, b.1))
}

/// Sends of one path.
pub open spec fn sends_of(path: Seq<char>, pieces: Seq<Range>) -> Seq<(Seq<char>, Range)> {
    pieces.map_values(|r: Range| (path, r))
}

/// How much of the window `w` is left when the file at `i` is served.
pub open spec fn window_at(files: Seq<FileView>, w: int, i: int) -> int
    decreases i,
{
    if i <= 0 {
        w
    } else {
        let left = window_at(files, w, i - 1);
        if files[i - 1].blocked {
            left
        } else {
            left - total(claimed(files[i - 1].dirty, left))
        }
    }
}

/// The sends that the first `i` files are given within the window `w`.
pub open spec fn batch_upto(files: Seq<FileView>, w: int, i: int) -> Seq<(Seq<char>, Range)>
    decreases i,
{
    if i <= 0 {
        Seq::empty()
    } else if files[i - 1].blocked {
        batch_upto(files, w, i - 1)
    } else {
        batch_upto(files, w, i - 1) + sends_of(
            files[i - 1].name,
            claimed(files[i - 1].dirty, window_at(files, w, i - 1)),
        )
    }
}

/// The file at `i` once the window `w` has been handed out.
pub open spec fn file_after(files: Seq<FileView>, w: int, i: int) -> FileView {
    if files[i].blocked {
        files[i]
    } else {
        files[i].after_claim(window_at(files, w, i))
    }
}

/// The files once the window `w` has been handed out.
pub open spec fn files_after(files: Seq<FileView>, w: int) -> Seq<FileView> {
    Seq::new(files.len(), |i: int| file_after(files, w, i))
}

/// What is in flight anew was dirty before, so a file stays in order.
proof fn lemma_claim_keeps_inv(f: FileView, w: int)
    requires
        f.inv(),
        !f.blocked,
        0 <= w,
    ensures
        f.after_claim(w).inv(),
        total(f.after_claim(w).dirty) == total(f.dirty) - total(claimed(f.dirty, w)),
        total(f.after_claim(w).inflight) == total(f.inflight) + total(claimed(f.dirty, w)),
{
    lemma_claim_splits(f.dirty, w);
    let pieces = claimed(f.dirty, w);
    let g = f.after_claim(w);
    lemma_total_concat(f.inflight, pieces);
    assert forall|i: int, j: int| 0 <= i < f.inflight.len() && 0 <= j < pieces.len() implies (
    #[trigger] f.inflight[i]).1 <= (#[trigger] pieces[j]).0 || pieces[j].1 <= f.inflight[i].0 by {
        let a = f.inflight[i];
        let b = pieces[j];
        let x = if a.0 < b.0 {
            b.0 as int
        } else {
            a.0 as int
        };
        if a.1 > b.0 && b.1 > a.0 {
            assert(in_range(f.inflight[i], x));
            assert(in_range(pieces[j], x));
            assert(covers(f.inflight, x));
            assert(covers(pieces, x));
            assert(covers(f.dirty, x));
            assert(false);
        }
    }
    assert forall|i: int| 0 <= i < g.inflight.len() implies #[trigger] g.inflight[i] == if i
        < f.inflight.len() {
        f.inflight[i]
    } else {
        pieces[i - f.inflight.len()]
    } by {}
    assert forall|x: int| !(#[trigger] covers(g.dirty, x) && covers(g.inflight, x)) by {
        if covers(g.dirty, x) && covers(g.inflight, x) {
            assert(covers(f.dirty, x));
            let i = choose|i: int|
                0 <= i < g.inflight.len() && in_range(#[trigger] g.inflight[i], x);
            if i < f.inflight.len() {
                assert(in_range(f.inflight[i], x));
                assert(covers(f.inflight, x));
            } else {
                assert(in_range(pieces[i - f.inflight.len()], x));
                assert(covers(pieces, x));
            }
        }
    }
    if g.inflight.len() == 0 {
        assert(pieces.len() == 0);
        assert(g.dirty =~= f.dirty) by {
            lemma_nothing_claimed(f.dirty, w);
        }
    }
}

/// Where nothing is claimed, everything stays behind.
proof fn lemma_nothing_claimed(d: Seq<Range>, w: int)
    requires
        claimed(d, w).len() == 0,
    ensures
        left_over(d, w) == d,
{
}

impl FileUploads {
    /// Claims dirty ranges for sending, at most `window` bytes, and adds them
    /// to `out`; returns the bytes claimed.
    fn claim(&mut self, window: u64, out: &mut Vec<(String, Range)>) -> (taken: u64)
        requires
            is_range_list(old(self)@.dirty),
        ensures
            final(self)@ == old(self)@.after_claim(window as int),
            taken == total(claimed(old(self)@.dirty, window as int)),
            taken <= window,
            batch_view(final(out)@) == batch_view(old(out)@) + sends_of(
                old(self)@.name,
                claimed(old(self)@.dirty, window as int),
            ),
    {
        let ghost d0 = self.dirty@;
        let ghost f0 = self@;
        let ghost o0 = batch_view(out@);
        let ghost w0: int = window as int;
        let ghost mut pieces: Seq<Range> = Seq::empty();
        let mut left: u64 = window;
        proof {
            lemma_claim_splits(d0, w0);
        }
        assert(pieces + claimed(d0, w0) =~= claimed(d0, w0));
        assert(self.inflight@ =~= f0.inflight + pieces);
        assert(batch_view(out@) =~= o0 + sends_of(f0.name, pieces));
        while left > 0 && self.dirty.len() > 0
            invariant
                left <= window,
                w0 == window as int,
                is_range_list(self.dirty@),
                self.path@ == f0.path,
                self.name@ == f0.name,
                self.blocked == f0.blocked,
                self.inflight@ == f0.inflight + pieces,
                pieces + claimed(self.dirty@, left as int) == claimed(d0, w0),
                left_over(self.dirty@, left as int) == left_over(d0, w0),
                total(pieces) == window - left,
                batch_view(out@) == o0 + sends_of(f0.name, pieces),
            decreases left,
        {
            let (s, e) = self.dirty[0];
            let ghost d = self.dirty@;
            let mut n: u64 = e - s;
            if n > CHUNK_MAX {
                n = CHUNK_MAX;
            }
            if n > left {
                n = left;
            }
            let piece = (s, s + n);
            if piece.1 < e {
                self.dirty.set(0, (piece.1, e));
            } else {
                self.dirty.remove(0);
            }
            self.inflight.push(piece);
            let ghost given = batch_view(out@);
            out.push((self.name.clone(), piece));
            proof {
                assert(batch_view(out@) =~= given.push((f0.name, piece)));
                assert(sends_of(f0.name, pieces.push(piece)) =~= sends_of(f0.name, pieces).push(
                    (f0.name, piece),
                ));
                assert(n == piece_len(d[0], left as int));
                assert(self.dirty@ =~= rest_after(d, n as int));
                lemma_rest_after(d, n as int);
                let more = claimed(self.dirty@, left - n);
                assert(claimed(d, left as int) =~= seq![piece] + more);
                assert(pieces.push(piece) + more =~= pieces + (seq![piece] + more));
                assert(self.inflight@ =~= f0.inflight + pieces.push(piece));
                assert(batch_view(out@) =~= o0 + sends_of(f0.name, pieces.push(piece)));
                lemma_total_push(pieces, piece);
                pieces = pieces.push(piece);
            }
            left = left - n;
        }
        assert(claimed(self.dirty@, left as int) =~= Seq::<Range>::empty());
        assert(pieces =~= claimed(d0, w0));
        assert(self@ =~= f0.after_claim(w0));
        window - left
    }
}

impl UploadQueue {
    /// Claim dirty ranges for sending: up to the in-flight window total and
    /// `CHUNK_MAX` per send. Empty while in post-failure backoff.
    pub fn take_batch(&mut self, now: u64) -> (batch: Vec<(String, Range)>)
        requires
            old(self)@.inv(),
        ensures
            final(self)@.inv(),
            old(self)@.handed_out(final(self)@, batch_view(batch@), now as int),
            now < old(self)@.retry_after ==> batch@.len() == 0,
            forall|p: Seq<char>| #[trigger]
                final(self)@.inflight(p) == old(self)@.inflight(p) + ranges_sent(
                    batch_view(batch@),
                    p,
                ),
            forall|i: int, x: int|
                0 <= i < batch@.len() && batch@[i].1.0 <= x < batch@[i].1.1 ==> #[trigger] covers(
                    old(self)@.dirty(normal((#[trigger] batch@[i]).0@)),
                    x,
                ),
    {
        let mut out: Vec<(String, Range)> = Vec::new();
        let ghost before = self@;
        if now < self.retry_after {
            proof {
                assert(batch_view(out@) =~= Seq::<(Seq<char>, Range)>::empty());
                lemma_batch_tells(before, self@, out@, now as int);
            }
            return out;
        }
        let ghost w: int = WRITE_WINDOW - before.inflight_bytes;
        let mut window_left: u64 = WRITE_WINDOW - self.inflight_bytes;
        let mut i: usize = 0;
        assert(batch_view(out@) =~= Seq::<(Seq<char>, Range)>::empty());
        while i < self.files.len()
            invariant
                before.inv(),
                self@.inv(),
                i <= self.files@.len(),
                w == WRITE_WINDOW - before.inflight_bytes,
                self@.files.len() == before.files.len(),
                self.files@.len() == before.files.len(),
                forall|k: int| 0 <= k < i ==> #[trigger] self@.files[k] == file_after(before.files, w, k),
                forall|k: int|
                    i <= k < before.files.len() ==> #[trigger] self@.files[k] == before.files[k],
                window_left == window_at(before.files, w, i as int),
                window_left == WRITE_WINDOW - self.inflight_bytes,
                batch_view(out@) == batch_upto(before.files, w, i as int),
                self@.errors == before.errors,
                self@.retry_after == before.retry_after,
                self@.backoff_ms == before.backoff_ms,
            decreases self.files@.len() - i,
        {
            let ghost here = self@;
            let ghost was = self.files@[i as int]@;
            assert(here.files[i as int] == was);
            if !self.files[i].blocked {
                let taken = self.files[i].claim(window_left, &mut out);
                proof {
                    lemma_claim_splits(was.dirty, window_left as int);
                    lemma_claim_keeps_inv(was, window_left as int);
                    let sizes = dirty_sizes(here.files);
                    assert forall|k: int| 0 <= k < sizes.len() implies #[trigger] sizes[k] >= 0 by {
                        assert(here.files[k].inv());
                        lemma_total_nonnegative(here.files[k].dirty);
                    }
                    lemma_sum_at_least(sizes, i as int);
                    lemma_total_nonnegative(left_over(was.dirty, window_left as int));
                }
                self.dirty_bytes = self.dirty_bytes - taken;
                self.inflight_bytes = self.inflight_bytes + taken;
                proof {
                    let f = self.files@[i as int]@;
                    assert(self@.files =~= here.files.update(i as int, f));
                    lemma_replace(here, self@, i as int, f);
                }
                window_left = window_left - taken;
            }
            i += 1;
        }
        assert(self@.files =~= files_after(before.files, w));
        proof {
            lemma_batch_tells(before, self@, out@, now as int);
        }
        out
    }
}

/// What a batch says of the queue before and after it.
proof fn lemma_batch_tells(
    before: QueueView,
    after: QueueView,
    batch: Seq<(String, Range)>,
    now: int,
)
    requires
        before.inv(),
        after.inv(),
        before.handed_out(after, batch_view(batch), now),
    ensures
        forall|p: Seq<char>| #[trigger]
            after.inflight(p) == before.inflight(p) + ranges_sent(batch_view(batch), p),
        forall|i: int, x: int|
            0 <= i < batch.len() && batch[i].1.0 <= x < batch[i].1.1 ==> #[trigger] covers(
                before.dirty(normal((#[trigger] batch[i]).0@)),
                x,
            ),
{
    let sends = batch_view(batch);
    assert forall|p: Seq<char>| #[trigger]
        after.inflight(p) == before.inflight(p) + ranges_sent(sends, p) by {
        lemma_sends_are_what_is_in_flight(before, after, sends, now, p);
    }
    assert forall|i: int, x: int|
        0 <= i < batch.len() && batch[i].1.0 <= x < batch[i].1.1 implies #[trigger] covers(
        before.dirty(normal((#[trigger] batch[i]).0@)),
        x,
    ) by {
        assert(sends[i] == (batch[i].0@, batch[i].1));
        lemma_sends_are_what_is_in_flight(before, after, sends, now, normal(batch[i].0@));
        assert(in_range(sends[i].1, x));
    }
}

// ---------------------------------------------------------------------------
// Landing sends
// ---------------------------------------------------------------------------

/// A send leaves the list of those in flight.
proof fn lemma_land(f: FileView, g: FileView, k: int, retry: bool)
    requires
        f.inv(),
        0 <= k < f.inflight.len(),
        normal(g.name) == g.path,
        g.inflight == f.inflight.remove(k),
        is_range_list(g.dirty),
        forall|x: int| #[trigger]
            covers(g.dirty, x) <==> covers(f.dirty, x) || retry && in_range(f.inflight[k], x),
        g.dirty.len() > 0 || g.inflight.len() > 0,
        g.blocked == (f.blocked && g.inflight.len() > 0),
    ensures
        g.inv(),
        total(g.inflight) == total(f.inflight) - (f.inflight[k].1 - f.inflight[k].0),
{
    lemma_total_remove(f.inflight, k);
    assert forall|i: int| 0 <= i < g.inflight.len() implies #[trigger] g.inflight[i]
        == f.inflight[if i < k {
        i
    } else {
        i + 1
    }] by {}
    if !g.blocked {
        assert forall|x: int| !(#[trigger] covers(g.dirty, x) && covers(g.inflight, x)) by {
            if covers(g.dirty, x) && covers(g.inflight, x) {
                let i = choose|i: int|
                    0 <= i < g.inflight.len() && in_range(#[trigger] g.inflight[i], x);
                let j = if i < k {
                    i
                } else {
                    i + 1
                };
                assert(in_range(f.inflight[j], x));
                assert(covers(f.inflight, x));
                if in_range(f.inflight[k], x) {
                    assert(f.inflight[j].1 <= f.inflight[k].0 || f.inflight[k].1 <= f.inflight[j].0);
                }
            }
        }
    }
}

impl FileUploads {
    /// Whether a send of `range` is in flight.
    fn sends(&self, range: Range) -> (res: bool)
        ensures
            res == self@.inflight.contains(range),
    {
        let mut k: usize = 0;
        while k < self.inflight.len()
            invariant
                k <= self.inflight@.len(),
                forall|j: int| 0 <= j < k ==> #[trigger] self.inflight@[j] != range,
            decreases self.inflight@.len() - k,
        {
            if self.inflight[k].0 == range.0 && self.inflight[k].1 == range.1 {
                assert(self.inflight@[k as int] == range);
                return true;
            }
            k += 1;
        }
        false
    }

    /// Takes `range` out of the list of sends in flight.
    fn land(&mut self, range: Range) -> (at: Ghost<int>)
        requires
            old(self)@.inflight.contains(range),
        ensures
            0 <= at@ < old(self)@.inflight.len(),
            old(self)@.inflight[at@] == range,
            final(self)@ == (FileView {
                inflight: old(self)@.inflight.remove(at@),
                blocked: old(self)@.blocked && old(self)@.inflight.len() > 1,
                ..old(self)@
            }),
    {
        let ghost before = self@;
        let count: usize = self.inflight.len();
        let mut k: usize = 0;
        while self.inflight[k].0 != range.0 || self.inflight[k].1 != range.1
            invariant
                self@ == before,
                before.inflight.contains(range),
                count == self.inflight@.len(),
                k < count,
                forall|j: int| 0 <= j < k ==> #[trigger] self.inflight@[j] != range,
            decreases self.inflight@.len() - k,
        {
            proof {
                let j = choose|j: int| 0 <= j < before.inflight.len() && before.inflight[j] == range;
                assert(self.inflight@[j] == range);
                assert(j > k);
            }
            k += 1;
        }
        assert(self.inflight@[k as int] == range);
        self.inflight.remove(k);
        if self.inflight.len() == 0 {
            self.blocked = false;
        }
        assert(self@ =~= FileView {
            inflight: before.inflight.remove(k as int),
            blocked: before.blocked && before.inflight.len() > 1,
            ..before
        });
        Ghost(k as int)
    }
}

impl FileUploads {
    /// The send of `range`, which is in flight, has ended; with `retry` its bytes
    /// are dirty again, under the name `path` where none are. Returns the newly
    /// dirty bytes, and where the send stood.
    fn conclude(&mut self, path: &str, range: Range, retry: bool) -> (res: (u64, Ghost<int>))
        requires
            old(self)@.inv(),
            old(self)@.path == normal(path@),
            old(self)@.inflight.contains(range),
        ensures
            0 <= res.1@ < old(self)@.inflight.len(),
            old(self)@.inflight[res.1@] == range,
            range.0 < range.1,
            final(self)@.path == old(self)@.path,
            final(self)@.name == if retry && old(self)@.dirty.len() == 0 {
                path@
            } else {
                old(self)@.name
            },
            final(self)@.inflight == old(self)@.inflight.remove(res.1@),
            final(self)@.blocked == (old(self)@.blocked && final(self)@.inflight.len() > 0),
            !retry ==> final(self)@.dirty == old(self)@.dirty,
            forall|x: int| #[trigger]
                covers(final(self)@.dirty, x) <==> covers(old(self)@.dirty, x) || retry && in_range(
                    range,
                    x,
                ),
            res.0 == total(final(self)@.dirty) - total(old(self)@.dirty),
            res.0 <= range.1 - range.0,
            total(final(self)@.inflight) == total(old(self)@.inflight) - (range.1 - range.0),
            0 <= total(final(self)@.inflight),
            final(self)@.dirty.len() > 0 || final(self)@.inflight.len() > 0 ==> final(self)@.inv(),
    {
        let ghost was = self@;
        let at = self.land(range);
        let mut added: u64 = 0;
        if retry {
            if self.dirty.len() == 0 {
                self.name = path.to_owned();
            }
            added = self.add_dirty(range.0, range.1);
        }
        proof {
            lemma_total_remove(was.inflight, at@);
            let rest = was.inflight.remove(at@);
            assert forall|k: int| 0 <= k < rest.len() implies (#[trigger] rest[k]).0 < rest[k].1 by {
                assert(rest[k] == was.inflight[if k < at@ {
                    k
                } else {
                    k + 1
                }]);
            }
            lemma_total_nonnegative(rest);
            if self@.dirty.len() > 0 || self@.inflight.len() > 0 {
                lemma_land(was, self@, at@, retry);
            }
        }
        (added, at)
    }
}

impl UploadQueue {
    /// Counts an outcome.
    fn record(&mut self, outcome: SendOutcome, now: u64)
        requires
            outcome != SendOutcome::Sent ==> old(self)@.errors < u64::MAX,
            now <= u64::MAX - 2000,
            0 <= old(self)@.backoff_ms <= 2000,
        ensures
            old(self)@.recorded(final(self)@, outcome, now as int),
            final(self)@ == (QueueView {
                errors: final(self)@.errors,
                backoff_ms: final(self)@.backoff_ms,
                retry_after: final(self)@.retry_after,
                ..old(self)@
            }),
            0 <= final(self)@.backoff_ms <= 2000,
    {
        match outcome {
            SendOutcome::Sent => {
                self.retry_after = now;
                self.backoff_ms = 0;
            },
            SendOutcome::Retry => {
                self.errors = self.errors + 1;
                let base: u64 = if self.backoff_ms < 100 {
                    100
                } else {
                    self.backoff_ms
                };
                self.backoff_ms = if base * 2 < 2000 {
                    base * 2
                } else {
                    2000
                };
                self.retry_after = now + self.backoff_ms;
            },
            SendOutcome::Drop => {
                self.errors = self.errors + 1;
            },
        }
    }

    /// Records an outcome of which no send is in flight.
    fn stray(&mut self, path: &str, range: Range, outcome: SendOutcome, now: u64)
        requires
            old(self)@.inv(),
            outcome == SendOutcome::Retry && range.0 < range.1 ==> old(self)@.dirty_bytes + old(
                self,
            )@.inflight_bytes + (range.1 - range.0) <= u64::MAX,
            outcome != SendOutcome::Sent ==> old(self)@.errors < u64::MAX,
            now <= u64::MAX - 2000,
        ensures
            final(self)@.inv(),
            old(self)@.strayed(final(self)@, path@, range, outcome, now as int),
    {
        let ghost before = self@;
        self.record(outcome, now);
        let ghost counted = self@;
        proof {
            lemma_same_slots(before, counted);
        }
        if let SendOutcome::Retry = outcome {
            self.enqueue(path, range.0, range.1);
        }
    }

    /// Record a send outcome: `range` of `path` is no longer in flight. Where no
    /// send of it was, the outcome counts all the same.
    pub fn finish(&mut self, path: &str, range: Range, outcome: SendOutcome, now: u64)
        requires
            old(self)@.inv(),
            !old(self)@.inflight(normal(path@)).contains(range) && outcome == SendOutcome::Retry
                && range.0 < range.1 ==> old(self)@.dirty_bytes + old(self)@.inflight_bytes + (
            range.1 - range.0) <= u64::MAX,
            outcome != SendOutcome::Sent ==> old(self)@.errors < u64::MAX,
            now <= u64::MAX - 2000,
        ensures
            final(self)@.inv(),
            if old(self)@.inflight(normal(path@)).contains(range) {
                old(self)@.landed(final(self)@, path@, range, outcome, now as int)
            } else {
                old(self)@.strayed(final(self)@, path@, range, outcome, now as int)
            },
    {
        let ghost before = self@;
        let key = normalized(path);
        let i = match self.find(key.as_str()) {
            Some(i) => i,
            None => {
                proof {
                    lemma_no_slot(before, key@);
                }
                self.stray(path, range, outcome, now);
                return ;
            },
        };
        proof {
            lemma_slot(before, i as int);
        }
        let ghost was = self.files@[i as int]@;
        assert(before.files[i as int] == was);
        if self.files[i].sends(range) {
            self.settle(i, path, range, outcome, now);
        } else {
            self.stray(path, range, outcome, now);
        }
    }

    /// The send of `range` of the file at `i`, which is in flight, has ended.
    #[verifier::rlimit(30)]
    fn settle(&mut self, i: usize, path: &str, range: Range, outcome: SendOutcome, now: u64)
        requires
            old(self)@.inv(),
            i < old(self)@.files.len(),
            old(self)@.files[i as int].path == normal(path@),
            old(self)@.files[i as int].inflight.contains(range),
            outcome != SendOutcome::Sent ==> old(self)@.errors < u64::MAX,
            now <= u64::MAX - 2000,
        ensures
            final(self)@.inv(),
            old(self)@.landed(final(self)@, path@, range, outcome, now as int),
    {
        let ghost before = self@;
        let ghost key = normal(path@);
        proof {
            lemma_slot(before, i as int);
        }
        let ghost was = self.files@[i as int]@;
        assert(before.files[i as int] == was);
        let retry = match outcome {
            SendOutcome::Retry => true,
            _ => false,
        };
        let (added, at) = self.files[i].conclude(path, range, retry);
        let ghost now_file = self.files@[i as int]@;
        proof {
            let inflight = inflight_sizes(before.files);
            assert forall|k: int| 0 <= k < inflight.len() implies #[trigger] inflight[k] >= 0 by {
                assert(before.files[k].inv());
                lemma_total_nonnegative(before.files[k].inflight);
            }
            lemma_sum_at_least(inflight, i as int);
        }
        self.inflight_bytes = self.inflight_bytes - (range.1 - range.0);
        self.dirty_bytes = self.dirty_bytes + added;
        self.record(outcome, now);
        let ghost middle = self@;
        proof {
            assert(middle.files =~= before.files.update(i as int, now_file));
            lemma_replace(before, middle, i as int, now_file);
        }
        if self.files[i].dirty.len() == 0 && self.files[i].inflight.len() == 0 {
            self.files.remove(i);
            proof {
                assert(self@.files =~= middle.files.remove(i as int));
                lemma_leave(middle, self@, i as int);
                assert(now_file.dirty =~= Seq::<Range>::empty());
                assert(now_file.inflight =~= Seq::<Range>::empty());
                assert forall|k: int| 0 <= k < self@.files.len() implies (
                #[trigger] self@.files[k]).inv() by {
                    assert(self@.files[k] == before.files[if k < i {
                        k
                    } else {
                        k + 1
                    }]);
                }
            }
        } else {
            proof {
                assert forall|k: int| 0 <= k < self@.files.len() implies (
                #[trigger] self@.files[k]).inv() by {
                    if k != i {
                        assert(self@.files[k] == before.files[k]);
                    }
                }
            }
        }
        assert(before.inflight(key)[at@] == range);
    }

    /// Queue `data_len` bytes (already written to the local cache) at `offset`
    /// for background upload. Writers then wait while the dirty backlog is over
    /// `QUEUE_CAP`.
    pub fn enqueue_upload(&mut self, path: &str, offset: u64, data_len: usize)
        requires
            old(self)@.inv(),
            offset + data_len <= u64::MAX,
            old(self)@.dirty_bytes + old(self)@.inflight_bytes + data_len <= u64::MAX,
        ensures
            final(self)@.inv(),
            old(self)@.enqueued(final(self)@, path@, offset, (offset + data_len) as u64),
    {
        self.enqueue(path, offset, offset + data_len as u64);
    }

    /// The failed sends so far; a drain notes it when it begins.
    pub fn error_count(&self) -> (res: u64)
        ensures
            res == self@.errors,
    {
        self.errors
    }

    /// How a drain of `paths` stands that began when there were `start_errors`
    /// failed sends: failed when a send has failed since, even one that leaves
    /// nothing to send, or when the time is over, and done when no dirty or
    /// in-flight data remains for the paths, however they are written.
    pub fn drain_status(&self, paths: &[String], start_errors: u64, expired: bool) -> (res:
        DrainStatus)
        requires
            self@.inv(),
        ensures
            res == self@.drain(normals(texts(paths@)), start_errors as int, expired),
            res == DrainStatus::Failed <==> expired || self@.errors > start_errors,
            res == DrainStatus::Drained <==> !expired && self@.errors <= start_errors && forall|
                i: int,
                x: int,
            |
                0 <= i < paths@.len() ==> !#[trigger] self@.pending(normal(paths@[i]@), x),
    {
        proof {
            lemma_drain_tells_what_is_pending(
                self@,
                texts(paths@),
                start_errors as int,
                expired,
            );
            assert forall|i: int| 0 <= i < paths@.len() implies texts(paths@)[i]
                == #[trigger] paths@[i]@ by {}
        }
        if expired || self.errors > start_errors {
            return DrainStatus::Failed;
        }
        let ghost all = normals(texts(paths@));
        let mut i: usize = 0;
        while i < paths.len()
            invariant
                self@.inv(),
                !expired,
                self@.errors <= start_errors,
                i <= paths@.len(),
                all == normals(texts(paths@)),
                forall|k: int| 0 <= k < i ==> !self@.has_pending(#[trigger] all[k]),
            decreases paths@.len() - i,
        {
            assert(all[i as int] == normal(paths@[i as int]@));
            match self.find(normalized(paths[i].as_str()).as_str()) {
                Some(at) => {
                    proof {
                        lemma_slot(self@, at as int);
                        assert(self@.files[at as int].inv());
                        assert(self@.has_pending(all[i as int]));
                        lemma_pending_is_a_byte(self@, all[i as int]);
                        let x = choose|x: int| #[trigger] self@.pending(all[i as int], x);
                        assert(self@.pending(normal(paths@[i as int]@), x));
                    }
                    return DrainStatus::Waiting;
                },
                None => {
                    proof {
                        lemma_no_slot(self@, all[i as int]);
                    }
                },
            }
            i += 1;
        }
        DrainStatus::Drained
    }

    /// Whether `len` more bytes can be counted.
    pub fn has_room(&self, len: u64) -> (res: bool)
        requires
            self@.inv(),
        ensures
            res == (self@.dirty_bytes + self@.inflight_bytes + len <= u64::MAX),
    {
        len <= u64::MAX - self.dirty_bytes - self.inflight_bytes
    }

    /// Whether the dirty backlog is at most `cap`: writers wait while it is not.
    pub fn is_below(&self, cap: u64) -> (res: bool)
        ensures
            res == (self@.dirty_bytes <= cap),
    {
        self.dirty_bytes <= cap
    }
}

impl QueueView {
    /// Dirty or in-flight data remains for `path`.
    pub open spec fn has_pending(self, path: Seq<char>) -> bool {
        self.dirty(path).len() > 0 || self.inflight(path).len() > 0
    }

    /// Dirty or in-flight data remains for one of `paths`.
    pub open spec fn any_pending(self, paths: Seq<Seq<char>>) -> bool {
        exists|i: int| 0 <= i < paths.len() && self.has_pending(#[trigger] paths[i])
    }

    /// How a drain of `paths` stands that began with `start_errors` failed
    /// sends.
    pub open spec fn drain(
        self,
        paths: Seq<Seq<char>>,
        start_errors: int,
        expired: bool,
    ) -> DrainStatus {
        if expired || self.errors > start_errors {
            DrainStatus::Failed
        } else if self.any_pending(paths) {
            DrainStatus::Waiting
        } else {
            DrainStatus::Drained
        }
    }
}

// ---------------------------------------------------------------------------
// Laws of the queue
// ---------------------------------------------------------------------------

/// A queue whose files stand at the same places finds each path where it was.
proof fn lemma_same_slots(v: QueueView, w: QueueView)
    requires
        are_distinct(v.files),
        are_distinct(w.files),
        v.files.len() == w.files.len(),
        forall|i: int| 0 <= i < v.files.len() ==> (#[trigger] w.files[i]).path == v.files[i].path,
    ensures
        forall|p: Seq<char>| #[trigger] w.slot(p) == v.slot(p),
{
    assert forall|p: Seq<char>| #[trigger] w.slot(p) == v.slot(p) by {
        lemma_slot_cases(v, p);
        lemma_slot_cases(w, p);
        if v.slot(p) >= 0 {
            assert(w.files[v.slot(p)].path == p);
            lemma_slot(w, v.slot(p));
        } else if w.slot(p) >= 0 {
            assert(v.files[w.slot(p)].path == p);
        }
    }
}

/// The window never goes below zero while files are served.
proof fn lemma_window_at(files: Seq<FileView>, w: int, i: int)
    requires
        0 <= w,
        0 <= i <= files.len(),
        forall|k: int| 0 <= k < files.len() ==> (#[trigger] files[k]).inv(),
    ensures
        0 <= window_at(files, w, i) <= w,
    decreases i,
{
    if i > 0 {
        lemma_window_at(files, w, i - 1);
        lemma_claim_splits(files[i - 1].dirty, window_at(files, w, i - 1));
    }
}

/// A queued write is pending: every byte of it stays to be sent.
pub proof fn lemma_enqueue_makes_pending(
    before: QueueView,
    after: QueueView,
    path: Seq<char>,
    start: u64,
    end: u64,
)
    requires
        before.enqueued(after, path, start, end),
    ensures
        forall|x: int| #[trigger]
            after.pending(normal(path), x) <==> before.pending(normal(path), x) || start <= x
                < end,
        forall|p: Seq<char>, x: int| p != normal(path) ==> #[trigger] after.pending(p, x) == before.pending(
            p,
            x,
        ),
{
    let key = normal(path);
    assert forall|x: int| #[trigger]
        after.pending(key, x) <==> before.pending(key, x) || start <= x < end by {
        assert(covers(after.dirty(key), x) <==> covers(before.dirty(key), x) || start <= x < end);
    }
    assert forall|p: Seq<char>, x: int| p != key implies #[trigger] after.pending(p, x)
        == before.pending(p, x) by {
        assert(after.dirty(p) == before.dirty(p));
    }
}

/// Handing out work loses nothing: the same bytes are pending before and after.
pub proof fn lemma_batch_keeps_pending(
    before: QueueView,
    after: QueueView,
    batch: Seq<(Seq<char>, Range)>,
    now: int,
)
    requires
        before.inv(),
        after.inv(),
        before.handed_out(after, batch, now),
    ensures
        forall|p: Seq<char>, x: int| #[trigger] after.pending(p, x) == before.pending(p, x),
        forall|p: Seq<char>| #[trigger] after.blocked(p) == before.blocked(p),
{
    let w = WRITE_WINDOW - before.inflight_bytes;
    if now >= before.retry_after {
        lemma_same_slots(before, after);
        assert forall|p: Seq<char>, x: int| #[trigger]
            after.pending(p, x) == before.pending(p, x) by {
            lemma_slot_cases(before, p);
            let i = before.slot(p);
            if i >= 0 {
                let f = before.files[i];
                let g = after.files[i];
                assert(g == file_after(before.files, w, i));
                lemma_window_at(before.files, w, i);
                let left = window_at(before.files, w, i);
                if !f.blocked {
                    lemma_claim_splits(f.dirty, left);
                    lemma_covers_concat(f.inflight, claimed(f.dirty, left), x);
                    assert(covers(f.dirty, x) <==> covers(claimed(f.dirty, left), x) || covers(
                        left_over(f.dirty, left),
                        x,
                    ));
                }
            }
        }
        assert forall|p: Seq<char>| #[trigger] after.blocked(p) == before.blocked(p) by {
            lemma_slot_cases(before, p);
            if before.slot(p) >= 0 {
                assert(after.files[before.slot(p)] == file_after(before.files, w, before.slot(p)));
            }
        }
    }
}

/// Two lists together cover what either covers.
proof fn lemma_covers_concat(a: Seq<Range>, b: Seq<Range>, x: int)
    ensures
        covers(a + b, x) <==> covers(a, x) || covers(b, x),
{
    let c = a + b;
    if covers(a, x) {
        let i = choose|i: int| 0 <= i < a.len() && in_range(#[trigger] a[i], x);
        assert(in_range(c[i], x));
    }
    if covers(b, x) {
        let i = choose|i: int| 0 <= i < b.len() && in_range(#[trigger] b[i], x);
        assert(in_range(c[a.len() + i], x));
    }
    if covers(c, x) {
        let i = choose|i: int| 0 <= i < c.len() && in_range(#[trigger] c[i], x);
        if i < a.len() {
            assert(in_range(a[i], x));
        } else {
            assert(in_range(b[i - a.len()], x));
        }
    }
}

/// The flusher keeps the pipe full: when work has been handed out and a file
/// that is not blocked still has dirty bytes, the whole window is in flight.
pub proof fn lemma_batch_fills_window(
    before: QueueView,
    after: QueueView,
    batch: Seq<(Seq<char>, Range)>,
    now: int,
    path: Seq<char>,
)
    requires
        before.inv(),
        after.inv(),
        before.handed_out(after, batch, now),
        now >= before.retry_after,
        after.dirty(path).len() > 0,
        !after.blocked(path),
    ensures
        after.inflight_bytes == WRITE_WINDOW,
        after.inflight_bytes == 32 * 1024 * 1024,
{
    let w = WRITE_WINDOW - before.inflight_bytes;
    let n = before.files.len() as int;
    lemma_slot_cases(after, path);
    let i = after.slot(path);
    assert(after.files[i] == file_after(before.files, w, i));
    lemma_window_at(before.files, w, i);
    lemma_claim_splits(before.files[i].dirty, window_at(before.files, w, i));
    assert(window_at(before.files, w, i + 1) == 0);
    lemma_window_stays_empty(before.files, w, i + 1, n);
    lemma_window_counts(before.files, w, n);
    assert(after.files.take(n) =~= after.files);
    assert(files_after(before.files, w).take(n) =~= after.files);
    assert(before.files.take(n) =~= before.files);
}

/// Once the window is used up it stays used up.
proof fn lemma_window_stays_empty(files: Seq<FileView>, w: int, i: int, j: int)
    requires
        0 <= w,
        0 <= i <= j <= files.len(),
        forall|k: int| 0 <= k < files.len() ==> (#[trigger] files[k]).inv(),
        window_at(files, w, i) == 0,
    ensures
        window_at(files, w, j) == 0,
    decreases j - i,
{
    if i < j {
        lemma_window_stays_empty(files, w, i, j - 1);
        lemma_claim_splits(files[j - 1].dirty, 0);
    }
}

/// The bytes in flight grow by what leaves the window.
proof fn lemma_window_counts(files: Seq<FileView>, w: int, i: int)
    requires
        0 <= w,
        0 <= i <= files.len(),
        forall|k: int| 0 <= k < files.len() ==> (#[trigger] files[k]).inv(),
    ensures
        sum(inflight_sizes(files_after(files, w).take(i))) == sum(inflight_sizes(files.take(i))) + w
            - window_at(files, w, i),
    decreases i,
{
    let after = files_after(files, w);
    if i == 0 {
        assert(inflight_sizes(after.take(0)) =~= Seq::<int>::empty());
        assert(inflight_sizes(files.take(0)) =~= Seq::<int>::empty());
    } else {
        lemma_window_counts(files, w, i - 1);
        assert(inflight_sizes(after.take(i)) =~= inflight_sizes(after.take(i - 1)).push(
            total(after[i - 1].inflight),
        ));
        assert(inflight_sizes(files.take(i)) =~= inflight_sizes(files.take(i - 1)).push(
            total(files[i - 1].inflight),
        ));
        lemma_sum_push(inflight_sizes(after.take(i - 1)), total(after[i - 1].inflight));
        lemma_sum_push(inflight_sizes(files.take(i - 1)), total(files[i - 1].inflight));
        if !files[i - 1].blocked {
            lemma_window_at(files, w, i - 1);
            lemma_claim_keeps_inv(files[i - 1], window_at(files, w, i - 1));
        }
    }
}

/// A transient failure loses nothing: the same bytes are pending before and
/// after. An acknowledged or dropped send releases the bytes it carried, and
/// of those only the ones that were not written again meanwhile.
pub proof fn lemma_landing_releases_only_what_was_sent(
    before: QueueView,
    after: QueueView,
    path: Seq<char>,
    range: Range,
    outcome: SendOutcome,
    now: int,
)
    requires
        before.inv(),
        after.inv(),
        before.landed(after, path, range, outcome, now),
    ensures
        forall|p: Seq<char>, x: int| #[trigger]
            after.pending(p, x) <==> before.pending(p, x) && !(p == normal(path) && outcome
                != SendOutcome::Retry && in_range(range, x) && !covers(
                before.dirty(normal(path)),
                x,
            )),
{
    let path = normal(path);
    let inflight = before.inflight(path);
    let k = choose|k: int|
        0 <= k < inflight.len() && #[trigger] inflight[k] == range && after.inflight(path)
            == inflight.remove(k);
    lemma_slot_cases(before, path);
    assert(before.files[before.slot(path)].inv());
    assert(are_disjoint(inflight));
    assert forall|p: Seq<char>, x: int| #[trigger]
        after.pending(p, x) <==> before.pending(p, x) && !(p == path && outcome
            != SendOutcome::Retry && in_range(range, x) && !covers(before.dirty(path), x)) by {
        if p == path {
            let rest = inflight.remove(k);
            assert(covers(after.dirty(path), x) <==> covers(before.dirty(path), x) || outcome
                == SendOutcome::Retry && in_range(range, x));
            if covers(rest, x) {
                let i = choose|i: int| 0 <= i < rest.len() && in_range(#[trigger] rest[i], x);
                let j = if i < k {
                    i
                } else {
                    i + 1
                };
                assert(in_range(inflight[j], x));
                assert(inflight[j].1 <= inflight[k].0 || inflight[k].1 <= inflight[j].0);
            }
            if covers(inflight, x) && !in_range(range, x) {
                let j = choose|j: int| 0 <= j < inflight.len() && in_range(#[trigger] inflight[j], x);
                let i = if j < k {
                    j
                } else {
                    j - 1
                };
                assert(in_range(rest[i], x));
            }
            if in_range(range, x) {
                assert(in_range(inflight[k], x));
            }
        } else {
            assert(after.dirty(p) == before.dirty(p));
            assert(after.inflight(p) == before.inflight(p));
        }
    }
}

/// An outcome of which no send was in flight releases nothing: what was pending
/// stays pending.
pub proof fn lemma_stray_outcome_releases_nothing(
    before: QueueView,
    after: QueueView,
    path: Seq<char>,
    range: Range,
    outcome: SendOutcome,
    now: int,
    p: Seq<char>,
    x: int,
)
    requires
        before.strayed(after, path, range, outcome, now),
        before.pending(p, x),
    ensures
        after.pending(p, x),
{
    if p == normal(path) {
        assert(covers(before.dirty(p), x) ==> covers(after.dirty(p), x));
    } else {
        assert(after.dirty(p) == before.dirty(p));
    }
}

/// Rewrites keep their order: while a path is blocked none of its bytes is
/// handed out, so a byte that was written again is never in flight twice.
pub proof fn lemma_blocked_path_is_passed_over(
    before: QueueView,
    after: QueueView,
    batch: Seq<(Seq<char>, Range)>,
    now: int,
    path: Seq<char>,
)
    requires
        before.inv(),
        after.inv(),
        before.handed_out(after, batch, now),
        before.blocked(path),
    ensures
        after.inflight(path) == before.inflight(path),
        after.dirty(path) == before.dirty(path),
        forall|i: int| 0 <= i < batch.len() ==> normal((#[trigger] batch[i]).0) != path,
{
    if now >= before.retry_after {
        let w = WRITE_WINDOW - before.inflight_bytes;
        lemma_same_slots(before, after);
        lemma_slot_cases(before, path);
        assert(after.files[before.slot(path)] == file_after(before.files, w, before.slot(path)));
        lemma_batch_paths(before.files, w, before.files.len() as int);
        assert forall|i: int| 0 <= i < batch.len() implies normal((#[trigger] batch[i]).0)
            != path by {
            let j = choose|j: int|
                0 <= j < before.files.len() && !(#[trigger] before.files[j]).blocked
                    && before.files[j].name == batch[i].0;
            assert(before.files[j].inv());
            if normal(batch[i].0) == path {
                lemma_slot(before, j);
            }
        }
    }
}

/// Every send handed out belongs to a file that is not blocked.
proof fn lemma_batch_paths(files: Seq<FileView>, w: int, n: int)
    requires
        0 <= n <= files.len(),
    ensures
        forall|i: int|
            0 <= i < batch_upto(files, w, n).len() ==> exists|j: int|
                0 <= j < n && !(#[trigger] files[j]).blocked && files[j].name == (
                #[trigger] batch_upto(files, w, n)[i]).0,
    decreases n,
{
    if n > 0 {
        lemma_batch_paths(files, w, n - 1);
        let batch = batch_upto(files, w, n);
        let part = batch_upto(files, w, n - 1);
        assert forall|i: int| 0 <= i < batch.len() implies exists|j: int|
            0 <= j < n && !(#[trigger] files[j]).blocked && files[j].name == (
            #[trigger] batch[i]).0 by {
            if i < part.len() {
                assert(batch[i] == part[i]);
            } else {
                assert(!files[n - 1].blocked);
            }
        }
    }
}

/// What a drain promises: when it is done, no byte of its paths is left to be
/// sent.
pub proof fn lemma_drained_paths_are_sent(
    q: QueueView,
    paths: Seq<Seq<char>>,
    start_errors: int,
    expired: bool,
    i: int,
    x: int,
)
    requires
        q.drain(paths, start_errors, expired) == DrainStatus::Drained,
        0 <= i < paths.len(),
    ensures
        !q.pending(paths[i], x),
{
    assert(!q.has_pending(paths[i]));
}

/// A queued write is awaited: a drain of its path, in any spelling, is not done
/// while the write is queued.
pub proof fn lemma_queued_write_is_awaited(
    before: QueueView,
    after: QueueView,
    path: Seq<char>,
    start: u64,
    end: u64,
    paths: Seq<Seq<char>>,
    i: int,
    start_errors: int,
    expired: bool,
)
    requires
        before.enqueued(after, path, start, end),
        start < end,
        0 <= i < paths.len(),
        normal(paths[i]) == normal(path),
    ensures
        after.drain(normals(paths), start_errors, expired) != DrainStatus::Drained,
{
    let key = normal(path);
    assert(covers(after.dirty(key), start as int));
    assert(after.has_pending(normals(paths)[i]));
}

/// No byte is lost without a word: a byte stops being pending only when the
/// target has acknowledged it, or else the drains that wait have failed.
pub proof fn lemma_bytes_are_acknowledged_or_reported(
    before: QueueView,
    after: QueueView,
    path: Seq<char>,
    range: Range,
    outcome: SendOutcome,
    now: int,
    p: Seq<char>,
    x: int,
    paths: Seq<Seq<char>>,
    start_errors: int,
)
    requires
        before.inv(),
        after.inv(),
        before.landed(after, path, range, outcome, now),
        before.pending(p, x),
        !after.pending(p, x),
        start_errors <= before.errors,
    ensures
        p == normal(path) && in_range(range, x),
        outcome == SendOutcome::Sent || after.drain(paths, start_errors, false)
            == DrainStatus::Failed,
{
    lemma_landing_releases_only_what_was_sent(before, after, path, range, outcome, now);
}

/// The ranges of the sends of `path`, in the order of the batch.
pub open spec fn ranges_sent(batch: Seq<(Seq<char>, Range)>, path: Seq<char>) -> Seq<Range>
    decreases batch.len(),
{
    if batch.len() == 0 {
        Seq::empty()
    } else {
        let rest = ranges_sent(batch.drop_last(), path);
        if normal(batch.last().0) == path {
            rest.push(batch.last().1)
        } else {
            rest
        }
    }
}

/// The sends of two batches, one after the other.
proof fn lemma_ranges_sent_concat(
    a: Seq<(Seq<char>, Range)>,
    b: Seq<(Seq<char>, Range)>,
    path: Seq<char>,
)
    ensures
        ranges_sent(a + b, path) == ranges_sent(a, path) + ranges_sent(b, path),
    decreases b.len(),
{
    if b.len() == 0 {
        assert(a + b =~= a);
        assert(ranges_sent(a, path) + ranges_sent(b, path) =~= ranges_sent(a, path));
    } else {
        lemma_ranges_sent_concat(a, b.drop_last(), path);
        assert((a + b).drop_last() =~= a + b.drop_last());
        assert((a + b).last() == b.last());
        assert(ranges_sent(a + b, path) =~= ranges_sent(a, path) + ranges_sent(b, path));
    }
}

/// The sends of one file are sends of its path and of no other.
proof fn lemma_ranges_sent_of(name: Seq<char>, pieces: Seq<Range>, path: Seq<char>)
    ensures
        ranges_sent(sends_of(name, pieces), path) == if normal(name) == path {
            pieces
        } else {
            Seq::empty()
        },
    decreases pieces.len(),
{
    let sends = sends_of(name, pieces);
    if pieces.len() > 0 {
        lemma_ranges_sent_of(name, pieces.drop_last(), path);
        assert(sends.drop_last() =~= sends_of(name, pieces.drop_last()));
        assert(sends.last() == (name, pieces.last()));
        assert(pieces.drop_last().push(pieces.last()) =~= pieces);
    } else {
        assert(ranges_sent(sends, path) =~= Seq::<Range>::empty());
        assert(pieces =~= Seq::<Range>::empty());
    }
}

/// What the first `n` files are given of `path`: what is claimed of its file.
proof fn lemma_ranges_sent_upto(q: QueueView, w: int, n: int, path: Seq<char>)
    requires
        q.inv(),
        0 <= n <= q.files.len(),
    ensures
        ranges_sent(batch_upto(q.files, w, n), path) == if 0 <= q.slot(path) < n
            && !q.files[q.slot(path)].blocked {
            claimed(q.files[q.slot(path)].dirty, window_at(q.files, w, q.slot(path)))
        } else {
            Seq::empty()
        },
    decreases n,
{
    lemma_slot_cases(q, path);
    if n > 0 {
        lemma_ranges_sent_upto(q, w, n - 1, path);
        let f = q.files[n - 1];
        assert(f.inv());
        if f.path == path {
            lemma_slot(q, n - 1);
        }
        if !f.blocked {
            let pieces = claimed(f.dirty, window_at(q.files, w, n - 1));
            lemma_ranges_sent_concat(
                batch_upto(q.files, w, n - 1),
                sends_of(f.name, pieces),
                path,
            );
            lemma_ranges_sent_of(f.name, pieces, path);
            if f.path == path {
                assert(Seq::<Range>::empty() + pieces =~= pieces);
            } else {
                let had = ranges_sent(batch_upto(q.files, w, n - 1), path);
                assert(had + Seq::<Range>::empty() =~= had);
            }
        }
    }
}

/// A send of the batch is among those of its path.
proof fn lemma_send_is_listed(batch: Seq<(Seq<char>, Range)>, i: int)
    requires
        0 <= i < batch.len(),
    ensures
        ranges_sent(batch, normal(batch[i].0)).contains(batch[i].1),
    decreases batch.len(),
{
    let path = normal(batch[i].0);
    let rest = ranges_sent(batch.drop_last(), path);
    let all = ranges_sent(batch, path);
    if i == batch.len() - 1 {
        assert(all[rest.len() as int] == batch[i].1);
    } else {
        lemma_send_is_listed(batch.drop_last(), i);
        let k = choose|k: int| 0 <= k < rest.len() && rest[k] == batch[i].1;
        assert(all[k] == rest[k]);
    }
}

/// A range that is listed for a path is that of a send of the batch.
proof fn lemma_listed_is_sent(batch: Seq<(Seq<char>, Range)>, path: Seq<char>, k: int)
    requires
        0 <= k < ranges_sent(batch, path).len(),
    ensures
        exists|i: int|
            0 <= i < batch.len() && normal((#[trigger] batch[i]).0) == path && batch[i].1
                == ranges_sent(batch, path)[k],
    decreases batch.len(),
{
    if batch.len() > 0 {
        let rest = ranges_sent(batch.drop_last(), path);
        if k < rest.len() {
            lemma_listed_is_sent(batch.drop_last(), path, k);
            let i = choose|i: int|
                0 <= i < batch.drop_last().len() && normal((#[trigger] batch.drop_last()[i]).0)
                    == path && batch.drop_last()[i].1 == rest[k];
            assert(batch[i] == batch.drop_last()[i]);
        } else {
            assert(normal(batch[batch.len() - 1].0) == path);
        }
    }
}

/// What is handed out is what is in flight: the sends of a path in the batch are
/// exactly what becomes in flight for it, in their order. So every byte that is
/// sent was written and not yet in flight, every byte that stops being dirty is
/// sent, no byte is in flight twice, and no send is empty or longer than 4 MiB.
pub proof fn lemma_sends_are_what_is_in_flight(
    before: QueueView,
    after: QueueView,
    batch: Seq<(Seq<char>, Range)>,
    now: int,
    path: Seq<char>,
)
    requires
        before.inv(),
        after.inv(),
        before.handed_out(after, batch, now),
    ensures
        after.inflight(path) == before.inflight(path) + ranges_sent(batch, path),
        are_disjoint(after.inflight(path)),
        forall|i: int, x: int|
            0 <= i < batch.len() && normal((#[trigger] batch[i]).0) == path && #[trigger] in_range(
                batch[i].1,
                x,
            ) ==> covers(before.dirty(path), x) && !covers(after.dirty(path), x) && covers(
                after.inflight(path),
                x,
            ),
        forall|x: int| #[trigger]
            covers(before.dirty(path), x) && !covers(after.dirty(path), x) ==> exists|i: int|
                0 <= i < batch.len() && normal((#[trigger] batch[i]).0) == path && in_range(
                    batch[i].1,
                    x,
                ),
        forall|x: int| #[trigger] covers(after.dirty(path), x) ==> covers(before.dirty(path), x),
        forall|i: int|
            0 <= i < batch.len() && normal((#[trigger] batch[i]).0) == path ==> batch[i].1.0
                < batch[i].1.1 && batch[i].1.1 - batch[i].1.0 <= 4 * 1024 * 1024,
{
    let w = WRITE_WINDOW - before.inflight_bytes;
    let sent = ranges_sent(batch, path);
    lemma_slot_cases(before, path);
    lemma_slot_cases(after, path);
    let i = before.slot(path);
    let old_dirty = before.dirty(path);
    if i >= 0 {
        assert(before.files[i].inv());
    }
    if after.slot(path) >= 0 {
        assert(after.files[after.slot(path)].inv());
    }
    if now < before.retry_after {
        assert(sent =~= Seq::<Range>::empty());
        assert(before.inflight(path) + sent =~= before.inflight(path));
    } else {
        lemma_ranges_sent_upto(before, w, before.files.len() as int, path);
        lemma_same_slots(before, after);
        if i >= 0 {
            let f = before.files[i];
            assert(after.files[i] == file_after(before.files, w, i));
            lemma_window_at(before.files, w, i);
            lemma_claim_splits(f.dirty, window_at(before.files, w, i));
        }
        if i < 0 || before.files[i].blocked {
            assert(sent =~= Seq::<Range>::empty());
            assert(before.inflight(path) + sent =~= before.inflight(path));
        }
    }
    assert forall|x: int| #[trigger] covers(old_dirty, x) <==> covers(sent, x) || covers(
        after.dirty(path),
        x,
    ) by {}
    assert forall|k: int, x: int|
        0 <= k < batch.len() && normal((#[trigger] batch[k]).0) == path && #[trigger] in_range(
            batch[k].1,
            x,
        ) implies covers(before.dirty(path), x) && !covers(after.dirty(path), x) && covers(
        after.inflight(path),
        x,
    ) by {
        lemma_send_is_listed(batch, k);
        let j = choose|j: int| 0 <= j < sent.len() && sent[j] == batch[k].1;
        assert(in_range(sent[j], x));
        assert(covers(sent, x));
        lemma_covers_concat(before.inflight(path), sent, x);
    }
    assert forall|x: int| #[trigger]
        covers(before.dirty(path), x) && !covers(after.dirty(path), x) implies exists|k: int|
        0 <= k < batch.len() && normal((#[trigger] batch[k]).0) == path && in_range(
            batch[k].1,
            x,
        ) by {
        assert(covers(sent, x));
        let j = choose|j: int| 0 <= j < sent.len() && in_range(#[trigger] sent[j], x);
        lemma_listed_is_sent(batch, path, j);
    }
    assert forall|k: int|
        0 <= k < batch.len() && normal((#[trigger] batch[k]).0) == path implies batch[k].1.0
        < batch[k].1.1 && batch[k].1.1 - batch[k].1.0 <= 4 * 1024 * 1024 by {
        lemma_send_is_listed(batch, k);
        let j = choose|j: int| 0 <= j < sent.len() && sent[j] == batch[k].1;
        assert(sent[j].0 < sent[j].1);
    }
}

/// Dirty or in-flight data remains if and only if a byte is pending.
proof fn lemma_pending_is_a_byte(q: QueueView, path: Seq<char>)
    requires
        q.inv(),
    ensures
        q.has_pending(path) <==> exists|x: int| #[trigger] q.pending(path, x),
{
    lemma_slot_cases(q, path);
    if q.slot(path) >= 0 {
        let f = q.files[q.slot(path)];
        assert(f.inv());
        if f.dirty.len() > 0 {
            assert(in_range(f.dirty[0], f.dirty[0].0 as int));
            assert(covers(f.dirty, f.dirty[0].0 as int));
            assert(q.pending(path, f.dirty[0].0 as int));
        }
        if f.inflight.len() > 0 {
            assert(in_range(f.inflight[0], f.inflight[0].0 as int));
            assert(covers(f.inflight, f.inflight[0].0 as int));
            assert(q.pending(path, f.inflight[0].0 as int));
        }
    }
}

/// What a drain says, by the bytes of its paths: it has failed if and only if the
/// time is over or a send has failed since it began, and is otherwise done if
/// and only if no byte of its paths is pending.
pub proof fn lemma_drain_tells_what_is_pending(
    q: QueueView,
    paths: Seq<Seq<char>>,
    start_errors: int,
    expired: bool,
)
    requires
        q.inv(),
    ensures
        q.drain(normals(paths), start_errors, expired) == DrainStatus::Failed <==> expired
            || q.errors > start_errors,
        q.drain(normals(paths), start_errors, expired) == DrainStatus::Drained <==> !expired
            && q.errors <= start_errors && forall|i: int, x: int|
            0 <= i < paths.len() ==> !#[trigger] q.pending(normal(paths[i]), x),
{
    let all = normals(paths);
    assert forall|i: int| 0 <= i < paths.len() implies #[trigger] all[i] == normal(paths[i])
        && (q.has_pending(all[i]) <==> exists|x: int| #[trigger] q.pending(all[i], x)) by {
        lemma_pending_is_a_byte(q, all[i]);
    }
    if q.any_pending(all) {
        let i = choose|i: int| 0 <= i < all.len() && q.has_pending(#[trigger] all[i]);
        let x = choose|x: int| #[trigger] q.pending(all[i], x);
        assert(q.pending(normal(paths[i]), x));
    } else {
        assert forall|i: int, x: int| 0 <= i < paths.len() implies !#[trigger] q.pending(
            normal(paths[i]),
            x,
        ) by {
            assert(!q.has_pending(all[i]));
        }
    }
}

/// The pauses after failed sends: 200 milliseconds after the first, twice as long
/// after each that follows without a success, and never more than 2 seconds.
/// While the queue pauses nothing is handed out, and a success ends the pause.
pub proof fn lemma_failed_sends_pause_the_queue(
    before: QueueView,
    after: QueueView,
    path: Seq<char>,
    range: Range,
    outcome: SendOutcome,
    now: int,
    later: QueueView,
    batch: Seq<(Seq<char>, Range)>,
    instant: int,
)
    requires
        before.inv(),
        before.landed(after, path, range, outcome, now) || before.strayed(
            after,
            path,
            range,
            outcome,
            now,
        ),
        after.handed_out(later, batch, instant),
    ensures
        outcome == SendOutcome::Retry && before.backoff_ms == 0 ==> after.backoff_ms == 200,
        outcome == SendOutcome::Retry && 100 <= before.backoff_ms <= 1000 ==> after.backoff_ms
            == before.backoff_ms + before.backoff_ms,
        outcome == SendOutcome::Retry && before.backoff_ms > 1000 ==> after.backoff_ms == 2000,
        outcome == SendOutcome::Retry ==> after.retry_after == now + after.backoff_ms && (instant < now
            + after.backoff_ms ==> batch.len() == 0 && later == after),
        outcome == SendOutcome::Sent ==> after.backoff_ms == 0 && after.retry_after == now,
        outcome == SendOutcome::Drop ==> after.backoff_ms == before.backoff_ms
            && after.retry_after == before.retry_after,
        outcome == SendOutcome::Sent ==> after.errors == before.errors,
        outcome != SendOutcome::Sent ==> after.errors == before.errors + 1,
{
}

/// A claim goes from front to back and takes as much as it can at a time: its
/// pieces stand in ascending order, before all that stays behind, and each is as
/// long as a send can be, unless the dirty bytes or the window end with it.
proof fn lemma_claim_is_greedy(d: Seq<Range>, w: int)
    requires
        is_range_list(d),
        0 <= w,
    ensures
        forall|k: int|
            0 <= k < claimed(d, w).len() ==> (#[trigger] claimed(d, w)[k]).1 - claimed(d, w)[k].0
                == 4 * 1024 * 1024 || !covers(d, claimed(d, w)[k].1 as int) || total(
                claimed(d, w),
            ) == w,
        forall|k: int, l: int|
            0 <= k < l < claimed(d, w).len() ==> (#[trigger] claimed(d, w)[k]).1 <= (
            #[trigger] claimed(d, w)[l]).0,
        forall|k: int, x: int|
            0 <= k < claimed(d, w).len() && #[trigger] covers(left_over(d, w), x) ==> (
            #[trigger] claimed(d, w)[k]).1 <= x,
    decreases w,
{
    let pieces = claimed(d, w);
    let left = left_over(d, w);
    if !(d.len() == 0 || w <= 0 || piece_len(d[0], w) <= 0) {
        let n = piece_len(d[0], w);
        let rest = rest_after(d, n);
        let piece = (d[0].0, (d[0].0 + n) as u64);
        let more = claimed(rest, w - n);
        lemma_rest_after(d, n);
        lemma_claim_is_greedy(rest, w - n);
        lemma_claim_splits(rest, w - n);
        assert(pieces =~= seq![piece] + more);
        lemma_total_concat(seq![piece], more);
        lemma_total_single(piece);
        assert forall|k: int| 0 <= k < more.len() implies piece.1 <= (#[trigger] more[k]).0 by {
            assert(in_range(more[k], more[k].0 as int));
            assert(covers(more, more[k].0 as int));
            assert(covers(rest, more[k].0 as int));
        }
        assert forall|k: int| 0 <= k < pieces.len() implies (#[trigger] pieces[k]).1 - pieces[k].0
            == 4 * 1024 * 1024 || !covers(d, pieces[k].1 as int) || total(pieces) == w by {
            if k > 0 {
                assert(pieces[k] == more[k - 1]);
                let x = more[k - 1].1 as int;
                assert(covers(d, x) <==> covers(rest, x) || d[0].0 <= x < d[0].0 + n);
                assert(piece.1 <= more[k - 1].0);
                assert(in_range(more[k - 1], more[k - 1].0 as int));
            } else if n == d[0].1 - d[0].0 {
                let x = d[0].1 as int;
                if covers(d, x) {
                    let i = choose|i: int| 0 <= i < d.len() && in_range(#[trigger] d[i], x);
                    if i > 0 {
                        assert(d[0].1 < d[i].0);
                    }
                }
            } else if n != 4 * 1024 * 1024 {
                assert(n == w);
                assert(claimed(rest, 0) =~= Seq::<Range>::empty());
                assert(total(more) == 0);
            }
        }
        assert forall|k: int, l: int| 0 <= k < l < pieces.len() implies (#[trigger] pieces[k]).1
            <= (#[trigger] pieces[l]).0 by {
            assert(pieces[l] == more[l - 1]);
            if k > 0 {
                assert(pieces[k] == more[k - 1]);
            }
        }
        assert forall|k: int, x: int|
            0 <= k < pieces.len() && #[trigger] covers(left, x) implies (#[trigger] pieces[k]).1
            <= x by {
            assert(covers(rest, x));
            if k > 0 {
                assert(pieces[k] == more[k - 1]);
            }
        }
    }
}

/// How work is handed out: of each path from front to back, under the text by which
/// its bytes were queued, in sends that are as long as they can be. A send is
/// 4 MiB long, unless the dirty bytes of its path end there, or the window of
/// 32 MiB is used up; and all that stays dirty stands behind it.
pub proof fn lemma_sends_are_as_long_as_can_be(
    before: QueueView,
    after: QueueView,
    batch: Seq<(Seq<char>, Range)>,
    now: int,
    path: Seq<char>,
)
    requires
        before.inv(),
        after.inv(),
        before.handed_out(after, batch, now),
    ensures
        after.inflight_bytes <= 32 * 1024 * 1024,
        forall|k: int|
            0 <= k < ranges_sent(batch, path).len() ==> {
                let send = #[trigger] ranges_sent(batch, path)[k];
                ||| send.1 - send.0 == 4 * 1024 * 1024
                ||| !covers(before.dirty(path), send.1 as int)
                ||| after.inflight_bytes == 32 * 1024 * 1024
            },
        forall|k: int, l: int|
            0 <= k < l < ranges_sent(batch, path).len() ==> (#[trigger] ranges_sent(
                batch,
                path,
            )[k]).1 <= (#[trigger] ranges_sent(batch, path)[l]).0,
        forall|k: int, x: int|
            0 <= k < ranges_sent(batch, path).len() && #[trigger] covers(after.dirty(path), x) ==> (
            #[trigger] ranges_sent(batch, path)[k]).1 <= x,
        forall|i: int|
            0 <= i < batch.len() && normal((#[trigger] batch[i]).0) == path ==> batch[i].0
                == before.name(path),
{
    let w = WRITE_WINDOW - before.inflight_bytes;
    let n = before.files.len() as int;
    lemma_slot_cases(before, path);
    if now >= before.retry_after {
        lemma_ranges_sent_upto(before, w, n, path);
        lemma_same_slots(before, after);
        lemma_batch_paths(before.files, w, n);
        let i = before.slot(path);
        if i >= 0 && !before.files[i].blocked {
            let f = before.files[i];
            assert(f.inv());
            assert(after.files[i] == file_after(before.files, w, i));
            lemma_window_at(before.files, w, i);
            let room = window_at(before.files, w, i);
            lemma_claim_is_greedy(f.dirty, room);
            if total(claimed(f.dirty, room)) == room {
                assert(window_at(before.files, w, i + 1) == 0);
                lemma_window_stays_empty(before.files, w, i + 1, n);
                lemma_window_counts(before.files, w, n);
                assert(after.files.take(n) =~= after.files);
                assert(files_after(before.files, w).take(n) =~= after.files);
                assert(before.files.take(n) =~= before.files);
            }
        }
        assert forall|k: int|
            0 <= k < batch.len() && normal((#[trigger] batch[k]).0) == path implies batch[k].0
            == before.name(path) by {
            let j = choose|j: int|
                0 <= j < before.files.len() && !(#[trigger] before.files[j]).blocked
                    && before.files[j].name == batch[k].0;
            assert(before.files[j].inv());
            lemma_slot(before, j);
        }
    }
}

/// A write is taken to touch what is in flight where it shares a byte with it.
pub proof fn lemma_overlap_is_a_shared_byte(s: Seq<Range>, start: u64, end: u64)
    requires
        are_disjoint(s),
        start < end,
    ensures
        overlaps(s, start, end) <==> exists|x: int| start <= x < end && #[trigger] covers(s, x),
{
    if overlaps(s, start, end) {
        let i = choose|i: int| 0 <= i < s.len() && start < (#[trigger] s[i]).1 && s[i].0 < end;
        let x: int = if s[i].0 < start {
            start as int
        } else {
            s[i].0 as int
        };
        assert(in_range(s[i], x));
        assert(covers(s, x));
    }
    if exists|x: int| start <= x < end && #[trigger] covers(s, x) {
        let x = choose|x: int| start <= x < end && #[trigger] covers(s, x);
        let i = choose|i: int| 0 <= i < s.len() && in_range(#[trigger] s[i], x);
        assert(start < s[i].1 && s[i].0 < end);
    }
}

/// A path is held back from the moment that a byte is written again which is in
/// flight, and until nothing of it is in flight any more. A write is sent under the
/// text of the path by which the first of the dirty bytes was queued.
pub proof fn lemma_rewritten_path_waits_for_its_sends(
    before: QueueView,
    after: QueueView,
    path: Seq<char>,
    start: u64,
    end: u64,
    later: QueueView,
    range: Range,
    outcome: SendOutcome,
    now: int,
)
    requires
        before.inv(),
        before.enqueued(after, path, start, end),
        start < end,
        after.landed(later, path, range, outcome, now),
    ensures
        after.blocked(normal(path)) <==> before.blocked(normal(path)) || exists|x: int|
            start <= x < end && #[trigger] covers(before.inflight(normal(path)), x),
        later.blocked(normal(path)) <==> after.blocked(normal(path)) && later.inflight(
            normal(path),
        ).len() > 0,
        before.dirty(normal(path)).len() == 0 ==> after.name(normal(path)) == path,
        before.dirty(normal(path)).len() > 0 ==> after.name(normal(path)) == before.name(
            normal(path),
        ),
{
    let key = normal(path);
    lemma_slot_cases(before, key);
    if before.slot(key) >= 0 {
        assert(before.files[before.slot(key)].inv());
    }
    lemma_overlap_is_a_shared_byte(before.inflight(key), start, end);
    assert(covers(after.dirty(key), start as int));
}

} // verus!
