//! Merging byte ranges that lie close together, so that one read serves
//! several of them.

use vstd::prelude::*;

verus! {

/// The bytes from `start` up to, not including, `end`.
#[derive(Clone, Copy, Debug, PartialEq, Eq, Structural)]
pub struct ByteRange {
    pub start: u64,
    pub end: u64,
}

impl ByteRange {
    /// Whether `self` holds every byte of `other`.
    pub open spec fn covers(self, other: ByteRange) -> bool {
        self.start <= other.start && other.end <= self.end
    }
}

/// Whether `other` is merged into `this`: `this` is still shorter than
/// `limit`, and `other` starts or ends inside `this` stretched by `gap`.
pub open spec fn overlaps(this: ByteRange, other: ByteRange, gap: u64, limit: u64) -> bool {
    if this.end - this.start >= limit {
        false
    } else {
        ||| (other.start >= this.start && other.start <= this.end + gap)
        ||| (other.end >= this.start && other.end <= this.end + gap)
    }
}

/// The smallest range that holds both.
pub open spec fn hull(a: ByteRange, b: ByteRange) -> ByteRange {
    ByteRange {
        start: if a.start <= b.start {
            a.start
        } else {
            b.start
        },
        end: if a.end >= b.end {
            a.end
        } else {
            b.end
        },
    }
}

/// The merged ranges after one more range: it widens the last merged range
/// when it overlaps it, and starts a new one otherwise.
pub open spec fn added(merged: Seq<ByteRange>, r: ByteRange, gap: u64, limit: u64) -> Seq<ByteRange> {
    if merged.len() > 0 && overlaps(merged.last(), r, gap, limit) {
        merged.drop_last().push(hull(merged.last(), r))
    } else {
        merged.push(r)
    }
}

/// The merged ranges of a list of ranges taken in order.
pub open spec fn merged_in_order(ranges: Seq<ByteRange>, gap: u64, limit: u64) -> Seq<ByteRange>
    decreases ranges.len(),
{
    if ranges.len() == 0 {
        Seq::empty()
    } else {
        added(merged_in_order(ranges.drop_last(), gap, limit), ranges.last(), gap, limit)
    }
}

/// `sorted` with `r` put behind the last range that does not start later.
pub open spec fn inserted(sorted: Seq<ByteRange>, r: ByteRange) -> Seq<ByteRange>
    decreases sorted.len(),
{
    if sorted.len() == 0 {
        seq![r]
    } else if sorted.last().start <= r.start {
        sorted.push(r)
    } else {
        inserted(sorted.drop_last(), r).push(sorted.last())
    }
}

/// The ranges ordered by their start; ranges that start together keep
/// their order.
pub open spec fn sorted_by_start(raw: Seq<ByteRange>) -> Seq<ByteRange>
    decreases raw.len(),
{
    if raw.len() == 0 {
        Seq::empty()
    } else {
        inserted(sorted_by_start(raw.drop_last()), raw.last())
    }
}

/// The merged ranges of a set of raw ranges: the raw ranges are ordered by
/// their start and merged in that order.
pub open spec fn merged_ranges(raw: Seq<ByteRange>, gap: u64, limit: u64) -> Seq<ByteRange> {
    merged_in_order(sorted_by_start(raw), gap, limit)
}

/// Whether some range of `merged` holds every byte of `r`.
pub open spec fn covered(merged: Seq<ByteRange>, r: ByteRange) -> bool {
    exists|i: int| 0 <= i < merged.len() && (#[trigger] merged[i]).covers(r)
}

/// Inserting places `r` at one position and moves nothing else.
proof fn lemma_inserted_at(sorted: Seq<ByteRange>, r: ByteRange, i: int)
    requires
        0 <= i <= sorted.len(),
        forall|j: int| i <= j < sorted.len() ==> (#[trigger] sorted[j]).start > r.start,
        i > 0 ==> sorted[i - 1].start <= r.start,
    ensures
        inserted(sorted, r) == sorted.insert(i, r),
    decreases sorted.len() - i,
{
    if sorted.len() == 0 {
        assert(sorted.insert(0, r) =~= seq![r]);
    } else if i == sorted.len() {
        assert(sorted.insert(i, r) =~= sorted.push(r));
    } else {
        lemma_inserted_at(sorted.drop_last(), r, i);
        assert(sorted.drop_last().insert(i, r).push(sorted.last()) =~= sorted.insert(i, r));
    }
}

/// Inserting keeps every range and adds `r`.
proof fn lemma_inserted_members(sorted: Seq<ByteRange>, r: ByteRange)
    ensures
        inserted(sorted, r).contains(r),
        forall|x: ByteRange| sorted.contains(x) ==> inserted(sorted, r).contains(x),
    decreases sorted.len(),
{
    let out = inserted(sorted, r);
    if sorted.len() == 0 {
        assert(out[0] == r);
    } else if sorted.last().start <= r.start {
        assert(out[out.len() - 1] == r);
        assert forall|x: ByteRange| sorted.contains(x) implies out.contains(x) by {
            let i = choose|i: int| 0 <= i < sorted.len() && sorted[i] == x;
            assert(out[i] == x);
        }
    } else {
        lemma_inserted_members(sorted.drop_last(), r);
        let front = inserted(sorted.drop_last(), r);
        let k = choose|k: int| 0 <= k < front.len() && front[k] == r;
        assert(out[k] == r);
        assert forall|x: ByteRange| sorted.contains(x) implies out.contains(x) by {
            let i = choose|i: int| 0 <= i < sorted.len() && sorted[i] == x;
            if i == sorted.len() - 1 {
                assert(out[out.len() - 1] == x);
            } else {
                assert(sorted.drop_last()[i] == x);
                assert(sorted.drop_last().contains(x));
                assert(front.contains(x));
                let j = choose|j: int| 0 <= j < front.len() && front[j] == x;
                assert(out[j] == x);
            }
        }
    }
}

/// Sorting keeps every range.
proof fn lemma_sorted_members(raw: Seq<ByteRange>)
    ensures
        forall|i: int| 0 <= i < raw.len() ==> sorted_by_start(raw).contains(#[trigger] raw[i]),
    decreases raw.len(),
{
    if raw.len() > 0 {
        lemma_sorted_members(raw.drop_last());
        lemma_inserted_members(sorted_by_start(raw.drop_last()), raw.last());
        assert forall|i: int| 0 <= i < raw.len() implies sorted_by_start(raw).contains(#[trigger] raw[i]) by {
            if i < raw.len() - 1 {
                assert(raw.drop_last()[i] == raw[i]);
            }
        }
    }
}

/// Merging one more range keeps covered what was covered, and covers the
/// new range.
proof fn lemma_added_covers(merged: Seq<ByteRange>, r: ByteRange, gap: u64, limit: u64)
    ensures
        covered(added(merged, r, gap, limit), r),
        forall|x: ByteRange| covered(merged, x) ==> covered(added(merged, r, gap, limit), x),
{
    let out = added(merged, r, gap, limit);
    assert(out[out.len() - 1].covers(r));
    assert forall|x: ByteRange| covered(merged, x) implies covered(out, x) by {
        let i = choose|i: int| 0 <= i < merged.len() && (#[trigger] merged[i]).covers(x);
        assert(out[i].covers(x));
    }
}

/// Every range that was merged is covered by a merged range.
proof fn lemma_merged_in_order_covers(ranges: Seq<ByteRange>, gap: u64, limit: u64)
    ensures
        forall|i: int| 0 <= i < ranges.len() ==> covered(merged_in_order(ranges, gap, limit), #[trigger] ranges[i]),
    decreases ranges.len(),
{
    if ranges.len() > 0 {
        let front = ranges.drop_last();
        lemma_merged_in_order_covers(front, gap, limit);
        lemma_added_covers(merged_in_order(front, gap, limit), ranges.last(), gap, limit);
        assert forall|i: int| 0 <= i < ranges.len() implies covered(merged_in_order(ranges, gap, limit), #[trigger] ranges[i]) by {
            if i < ranges.len() - 1 {
                assert(front[i] == ranges[i]);
            }
        }
    }
}

/// Whatever the gap and the size limit, every raw range lies inside one of
/// the merged ranges: a read of the merged ranges serves every raw range.
pub proof fn lemma_merged_ranges_cover(raw: Seq<ByteRange>, gap: u64, limit: u64)
    ensures
        forall|i: int| 0 <= i < raw.len() ==> covered(merged_ranges(raw, gap, limit), #[trigger] raw[i]),
{
    let sorted = sorted_by_start(raw);
    lemma_sorted_members(raw);
    lemma_merged_in_order_covers(sorted, gap, limit);
    assert forall|i: int| 0 <= i < raw.len() implies covered(merged_ranges(raw, gap, limit), #[trigger] raw[i]) by {
        assert(sorted.contains(raw[i]));
        let k = choose|k: int| 0 <= k < sorted.len() && sorted[k] == raw[i];
        assert(covered(merged_in_order(sorted, gap, limit), sorted[k]));
    }
}

/// The position of the first range from position `from` on that holds
/// every byte of `check`, if any.
pub open spec fn first_cover_from(merged: Seq<ByteRange>, check: ByteRange, from: int) -> Option<int>
    decreases merged.len() - from,
{
    if from < 0 || from >= merged.len() {
        None
    } else if merged[from].covers(check) {
        Some(from)
    } else {
        first_cover_from(merged, check, from + 1)
    }
}

/// The position of the first range that holds every byte of `check`.
pub open spec fn first_cover(merged: Seq<ByteRange>, check: ByteRange) -> Option<int> {
    first_cover_from(merged, check, 0)
}

/// A first cover exists exactly when some range covers; it is in range and
/// covers.
pub proof fn lemma_first_cover(merged: Seq<ByteRange>, check: ByteRange, from: int)
    requires
        0 <= from <= merged.len(),
    ensures
        first_cover_from(merged, check, from).is_some() <==> (exists|i: int| from <= i < merged.len() && (#[trigger] merged[i]).covers(check)),
        first_cover_from(merged, check, from) matches Some(i) ==> from <= i < merged.len() && merged[i].covers(check),
    decreases merged.len() - from,
{
    if from < merged.len() {
        lemma_first_cover(merged, check, from + 1);
        if !merged[from].covers(check) {
            if exists|i: int| from <= i < merged.len() && (#[trigger] merged[i]).covers(check) {
                let i = choose|i: int| from <= i < merged.len() && (#[trigger] merged[i]).covers(check);
                assert(from + 1 <= i);
            }
        }
    }
}

/// Merges ranges that lie within a gap of each other, up to a size limit.
#[derive(Debug)]
pub struct RangeMerger {
    pub max_gap_size: u64,
    pub max_range_size: u64,
    pub ranges: Vec<ByteRange>,
}

/// Whether `other` is merged into `this`.
pub fn check_overlaps(this: &ByteRange, other: &ByteRange, max_gap_size: u64, max_range_size: u64) -> (b: bool)
    requires
        this.start <= this.end,
    ensures
        b == overlaps(*this, *other, max_gap_size, max_range_size),
{
    let this_len = this.end - this.start;
    if this_len >= max_range_size {
        false
    } else {
        let end_with_gap: u128 = this.end as u128 + max_gap_size as u128;
        (other.start >= this.start && other.start as u128 <= end_with_gap) || (other.end >= this.start && other.end as u128 <= end_with_gap)
    }
}

/// Orders ranges by their start; ranges that start together keep their
/// order.
pub fn sort_by_start(raw: &Vec<ByteRange>) -> (sorted: Vec<ByteRange>)
    ensures
        sorted@ == sorted_by_start(raw@),
{
    let mut sorted: Vec<ByteRange> = Vec::with_capacity(raw.len());
    let mut k: usize = 0;
    assert(raw@.subrange(0, 0) =~= Seq::<ByteRange>::empty());
    while k < raw.len()
        invariant
            k <= raw@.len(),
            sorted@ == sorted_by_start(raw@.subrange(0, k as int)),
            sorted@.len() == k,
        decreases raw@.len() - k,
    {
        let r = raw[k];
        let mut i: usize = sorted.len();
        while i > 0 && sorted[i - 1].start > r.start
            invariant
                i <= sorted@.len(),
                forall|j: int| i <= j < sorted@.len() ==> (#[trigger] sorted@[j]).start > r.start,
            decreases i,
        {
            i -= 1;
        }
        proof {
            lemma_inserted_at(sorted@, r, i as int);
            assert(raw@.subrange(0, k + 1).drop_last() =~= raw@.subrange(0, k as int));
        }
        sorted.insert(i, r);
        k += 1;
    }
    assert(raw@.subrange(0, raw@.len() as int) =~= raw@);
    sorted
}

impl RangeMerger {
    /// Every merged range ends no earlier than it starts.
    pub open spec fn well_formed(&self) -> bool {
        forall|i: int| 0 <= i < self.ranges@.len() ==> (#[trigger] self.ranges@[i]).start <= self.ranges@[i].end
    }

    /// Merges raw ranges: two ranges share a read when the later starts or
    /// ends within `max_gap_size` of the earlier's end, unless the read has
    /// already reached `max_range_size`. Every raw range lies inside one of
    /// the merged ranges. Each raw range must end no earlier than it
    /// starts.
    pub fn from_iter(raw_ranges: &Vec<ByteRange>, max_gap_size: u64, max_range_size: u64) -> (m: RangeMerger)
        requires
            forall|i: int| 0 <= i < raw_ranges@.len() ==> (#[trigger] raw_ranges@[i]).start <= raw_ranges@[i].end,
        ensures
            m.well_formed(),
            m.max_gap_size == max_gap_size,
            m.max_range_size == max_range_size,
            m.ranges@ == merged_ranges(raw_ranges@, max_gap_size, max_range_size),
            forall|i: int| 0 <= i < raw_ranges@.len() ==> covered(m.ranges@, #[trigger] raw_ranges@[i]),
    {
        let sorted = sort_by_start(raw_ranges);
        proof {
            lemma_sorted_well_formed(raw_ranges@);
        }
        let mut m = RangeMerger { max_gap_size, max_range_size, ranges: Vec::with_capacity(sorted.len()) };
        let mut k: usize = 0;
        assert(sorted@.subrange(0, 0) =~= Seq::<ByteRange>::empty());
        while k < sorted.len()
            invariant
                k <= sorted@.len(),
                m.well_formed(),
                m.max_gap_size == max_gap_size,
                m.max_range_size == max_range_size,
                forall|i: int| 0 <= i < sorted@.len() ==> (#[trigger] sorted@[i]).start <= sorted@[i].end,
                m.ranges@ == merged_in_order(sorted@.subrange(0, k as int), max_gap_size, max_range_size),
            decreases sorted@.len() - k,
        {
            assert(sorted@.subrange(0, k + 1).drop_last() =~= sorted@.subrange(0, k as int));
            m.add(&sorted[k]);
            k += 1;
        }
        proof {
            assert(sorted@.subrange(0, sorted@.len() as int) =~= sorted@);
            lemma_merged_ranges_cover(raw_ranges@, max_gap_size, max_range_size);
        }
        m
    }

    /// Takes one more range in.
    pub fn add(&mut self, range: &ByteRange)
        requires
            old(self).well_formed(),
            range.start <= range.end,
        ensures
            final(self).well_formed(),
            final(self).max_gap_size == old(self).max_gap_size,
            final(self).max_range_size == old(self).max_range_size,
            final(self).ranges@ == added(old(self).ranges@, *range, old(self).max_gap_size, old(self).max_range_size),
    {
        let n = self.ranges.len();
        if n > 0 {
            let last = self.ranges[n - 1];
            if check_overlaps(&last, range, self.max_gap_size, self.max_range_size) {
                let start = if last.start <= range.start {
                    last.start
                } else {
                    range.start
                };
                let end = if last.end >= range.end {
                    last.end
                } else {
                    range.end
                };
                self.ranges.set(n - 1, ByteRange { start, end });
                assert(self.ranges@ =~= added(old(self).ranges@, *range, old(self).max_gap_size, old(self).max_range_size));
                return ;
            }
        }
        self.ranges.push(*range);
    }

    /// The first merged range that holds every byte of `check`, with its
    /// position.
    pub fn get(&self, check: ByteRange) -> (r: Option<(usize, ByteRange)>)
        ensures
            r.is_some() <==> covered(self.ranges@, check),
            r.is_some() <==> first_cover(self.ranges@, check).is_some(),
            r matches Some((i, m)) ==> {
                &&& first_cover(self.ranges@, check) == Some(i as int)
                &&& i < self.ranges@.len()
                &&& m == self.ranges@[i as int]
                &&& m.covers(check)
            },
    {
        proof {
            lemma_first_cover(self.ranges@, check, 0);
        }
        let mut i: usize = 0;
        while i < self.ranges.len()
            invariant
                i <= self.ranges@.len(),
                first_cover(self.ranges@, check) == first_cover_from(self.ranges@, check, i as int),
            decreases self.ranges@.len() - i,
        {
            let m = self.ranges[i];
            if m.start <= check.start && m.end >= check.end {
                return Some((i, m));
            }
            i += 1;
        }
        None
    }

    /// The merged ranges, ordered as they were merged.
    pub fn ranges(&self) -> (out: Vec<ByteRange>)
        ensures
            out@ == self.ranges@,
    {
        let mut out: Vec<ByteRange> = Vec::with_capacity(self.ranges.len());
        let mut i: usize = 0;
        while i < self.ranges.len()
            invariant
                i <= self.ranges@.len(),
                out@ == self.ranges@.subrange(0, i as int),
            decreases self.ranges@.len() - i,
        {
            out.push(self.ranges[i]);
            i += 1;
            assert(out@ =~= self.ranges@.subrange(0, i as int));
        }
        assert(self.ranges@.subrange(0, self.ranges@.len() as int) =~= self.ranges@);
        out
    }
}

/// Sorting ranges that end no earlier than they start gives such ranges.
proof fn lemma_sorted_well_formed(raw: Seq<ByteRange>)
    requires
        forall|i: int| 0 <= i < raw.len() ==> (#[trigger] raw[i]).start <= raw[i].end,
    ensures
        forall|i: int| 0 <= i < sorted_by_start(raw).len() ==> (#[trigger] sorted_by_start(raw)[i]).start <= sorted_by_start(raw)[i].end,
    decreases raw.len(),
{
    if raw.len() > 0 {
        let front = raw.drop_last();
        assert forall|i: int| 0 <= i < front.len() implies (#[trigger] front[i]).start <= front[i].end by {
            assert(front[i] == raw[i]);
        }
        lemma_sorted_well_formed(front);
        lemma_inserted_well_formed(sorted_by_start(front), raw.last());
    }
}

/// Inserting a range that ends no earlier than it starts among such
/// ranges gives such ranges.
proof fn lemma_inserted_well_formed(sorted: Seq<ByteRange>, r: ByteRange)
    requires
        r.start <= r.end,
        forall|i: int| 0 <= i < sorted.len() ==> (#[trigger] sorted[i]).start <= sorted[i].end,
    ensures
        forall|i: int| 0 <= i < inserted(sorted, r).len() ==> (#[trigger] inserted(sorted, r)[i]).start <= inserted(sorted, r)[i].end,
    decreases sorted.len(),
{
    let out = inserted(sorted, r);
    if sorted.len() > 0 && sorted.last().start > r.start {
        let front = sorted.drop_last();
        assert forall|i: int| 0 <= i < front.len() implies (#[trigger] front[i]).start <= front[i].end by {
            assert(front[i] == sorted[i]);
        }
        lemma_inserted_well_formed(front, r);
        let inner = inserted(front, r);
        assert forall|i: int| 0 <= i < out.len() implies (#[trigger] out[i]).start <= out[i].end by {
            if i < inner.len() {
                assert(out[i] == inner[i]);
            } else {
                assert(out[i] == sorted.last());
            }
        }
    } else if sorted.len() > 0 {
        assert forall|i: int| 0 <= i < out.len() implies (#[trigger] out[i]).start <= out[i].end by {
            if i < sorted.len() {
                assert(out[i] == sorted[i]);
            }
        }
    }
}

} // verus!
