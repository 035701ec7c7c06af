//! Reading column data through merged byte ranges: which ranges to read,
//! and how the bytes read are cut back into the ranges asked for.

use vstd::prelude::*;
use crate::error::ErrorCode;
use crate::range_merger::{covered, first_cover, merged_ranges, ByteRange, RangeMerger};

verus! {

/// The ranges of a list of numbered ranges.
pub open spec fn ranges_of(raw: Seq<(usize, ByteRange)>) -> Seq<ByteRange> {
    Seq::new(raw.len(), |i: int| raw[i].1)
}

/// Whether every range ends no earlier than it starts.
pub open spec fn ranges_valid(raw: Seq<(usize, ByteRange)>) -> bool {
    forall|i: int| 0 <= i < raw.len() ==> (#[trigger] raw[i]).1.start <= raw[i].1.end
}

/// The position of the first entry from position `from` on that carries
/// the bytes of merged range `index`, if any.
pub open spec fn first_data_from(data: Seq<(usize, Vec<u8>)>, index: usize, from: int) -> Option<int>
    decreases data.len() - from,
{
    if from < 0 || from >= data.len() {
        None
    } else if data[from].0 == index {
        Some(from)
    } else {
        first_data_from(data, index, from + 1)
    }
}

/// The bytes of one raw range, cut from the bytes read for the merged range
/// that covers it. A raw range that no merged range covers, or whose merged
/// range was not read, is a broken invariant; bytes that end before the
/// raw range does are a failed read.
pub open spec fn piece_of(range: ByteRange, merged: Seq<ByteRange>, data: Seq<(usize, Vec<u8>)>) -> Result<Seq<u8>, ErrorCode> {
    if range.start > range.end {
        Err(ErrorCode::ConfigurationError)
    } else {
        match first_cover(merged, range) {
            None => Err(ErrorCode::InternalInvariantViolation),
            Some(m) => match first_data_from(data, m as usize, 0) {
                None => Err(ErrorCode::InternalInvariantViolation),
                Some(d) => {
                    let bytes = data[d].1@;
                    if range.end - merged[m].start > bytes.len() {
                        Err(ErrorCode::IOError)
                    } else {
                        Ok(bytes.subrange(range.start - merged[m].start, range.end - merged[m].start))
                    }
                },
            },
        }
    }
}

/// Plans the reads for a list of raw ranges: ranges within `max_gap_size`
/// of each other share a read, unless the read has reached
/// `max_range_size`. Every raw range lies inside one of the planned reads.
pub fn plan_merged_reads(raw_ranges: &Vec<(usize, ByteRange)>, max_gap_size: u64, max_range_size: u64) -> (r: Result<RangeMerger, ErrorCode>)
    ensures
        r.is_ok() <==> ranges_valid(raw_ranges@),
        r matches Err(e) ==> e == ErrorCode::ConfigurationError,
        r matches Ok(m) ==> {
            &&& m.well_formed()
            &&& m.ranges@ == merged_ranges(ranges_of(raw_ranges@), max_gap_size, max_range_size)
            &&& forall|i: int| 0 <= i < raw_ranges@.len() ==> covered(m.ranges@, (#[trigger] raw_ranges@[i]).1)
        },
{
    let mut ranges: Vec<ByteRange> = Vec::with_capacity(raw_ranges.len());
    let mut i: usize = 0;
    while i < raw_ranges.len()
        invariant
            i <= raw_ranges@.len(),
            ranges@ == ranges_of(raw_ranges@).subrange(0, i as int),
            forall|j: int| 0 <= j < i ==> (#[trigger] raw_ranges@[j]).1.start <= raw_ranges@[j].1.end,
        decreases raw_ranges@.len() - i,
    {
        let range = raw_ranges[i].1;
        if range.start > range.end {
            return Err(ErrorCode::ConfigurationError);
        }
        ranges.push(range);
        i += 1;
        assert(ranges@ =~= ranges_of(raw_ranges@).subrange(0, i as int));
    }
    assert(ranges@ =~= ranges_of(raw_ranges@));
    let m = RangeMerger::from_iter(&ranges, max_gap_size, max_range_size);
    assert forall|i: int| 0 <= i < raw_ranges@.len() implies covered(m.ranges@, (#[trigger] raw_ranges@[i]).1) by {
        assert(ranges@[i] == raw_ranges@[i].1);
    }
    Ok(m)
}

/// Finds the bytes read for merged range `index`.
pub fn find_merged_data(merged_data: &Vec<(usize, Vec<u8>)>, index: usize) -> (r: Option<usize>)
    ensures
        r.is_some() <==> first_data_from(merged_data@, index, 0).is_some(),
        r matches Some(d) ==> first_data_from(merged_data@, index, 0) == Some(d as int) && d < merged_data@.len() && merged_data@[d as int].0 == index,
{
    let mut d: usize = 0;
    while d < merged_data.len()
        invariant
            d <= merged_data@.len(),
            first_data_from(merged_data@, index, 0) == first_data_from(merged_data@, index, d as int),
        decreases merged_data@.len() - d,
    {
        if merged_data[d].0 == index {
            return Some(d);
        }
        d += 1;
    }
    None
}

/// Cuts the bytes read for the merged ranges back into the raw ranges, in
/// the order of the raw ranges and under their numbers. The first raw range
/// that cannot be served decides the error.
pub fn assemble_raw_reads(raw_ranges: &Vec<(usize, ByteRange)>, merger: &RangeMerger, merged_data: &Vec<(usize, Vec<u8>)>) -> (r: Result<Vec<(usize, Vec<u8>)>, ErrorCode>)
    ensures
        r.is_ok() <==> (forall|i: int| 0 <= i < raw_ranges@.len() ==> piece_of((#[trigger] raw_ranges@[i]).1, merger.ranges@, merged_data@).is_ok()),
        r matches Ok(out) ==> {
            &&& out@.len() == raw_ranges@.len()
            &&& forall|i: int| 0 <= i < out@.len() ==> {
                &&& (#[trigger] out@[i]).0 == raw_ranges@[i].0
                &&& Ok::<Seq<u8>, ErrorCode>(out@[i].1@) == piece_of(raw_ranges@[i].1, merger.ranges@, merged_data@)
            }
        },
        r matches Err(e) ==> exists|i: int| {
            &&& 0 <= i < raw_ranges@.len()
            &&& piece_of((#[trigger] raw_ranges@[i]).1, merger.ranges@, merged_data@) == Err::<Seq<u8>, ErrorCode>(e)
            &&& forall|j: int| 0 <= j < i ==> piece_of((#[trigger] raw_ranges@[j]).1, merger.ranges@, merged_data@).is_ok()
        },
{
    let mut out: Vec<(usize, Vec<u8>)> = Vec::with_capacity(raw_ranges.len());
    let mut i: usize = 0;
    while i < raw_ranges.len()
        invariant
            i <= raw_ranges@.len(),
            out@.len() == i,
            forall|j: int| 0 <= j < i ==> piece_of((#[trigger] raw_ranges@[j]).1, merger.ranges@, merged_data@).is_ok(),
            forall|j: int| 0 <= j < i ==> (#[trigger] out@[j]).0 == raw_ranges@[j].0,
            forall|j: int| 0 <= j < i ==> Ok::<Seq<u8>, ErrorCode>((#[trigger] out@[j]).1@) == piece_of(raw_ranges@[j].1, merger.ranges@, merged_data@),
        decreases raw_ranges@.len() - i,
    {
        let raw_idx = raw_ranges[i].0;
        let range = raw_ranges[i].1;
        if range.start > range.end {
            return Err(ErrorCode::ConfigurationError);
        }
        let (merged_idx, merged_range) = match merger.get(range) {
            None => {
                return Err(ErrorCode::InternalInvariantViolation);
            },
            Some(found) => found,
        };
        let d = match find_merged_data(merged_data, merged_idx) {
            None => {
                return Err(ErrorCode::InternalInvariantViolation);
            },
            Some(d) => d,
        };
        let bytes = &merged_data[d].1;
        let start = range.start - merged_range.start;
        let end = range.end - merged_range.start;
        if end > bytes.len() as u64 {
            return Err(ErrorCode::IOError);
        }
        let mut piece: Vec<u8> = Vec::with_capacity((end - start) as usize);
        let mut b: usize = start as usize;
        while b < end as usize
            invariant
                start <= b <= end,
                end <= bytes@.len(),
                piece@ == bytes@.subrange(start as int, b as int),
            decreases end - b,
        {
            piece.push(bytes[b]);
            b += 1;
            assert(piece@ =~= bytes@.subrange(start as int, b as int));
        }
        out.push((raw_idx, piece));
        i += 1;
    }
    Ok(out)
}

} // verus!
