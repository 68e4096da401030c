//! The offset index: the byte offset where each data record begins, followed
//! by the number of records; the length of the input is kept beside it.
use vstd::prelude::*;

use crate::scanner::{skip_blank_lines, body_start, logical_scan, parse_record_at, record_view, scan_all, skip_header};
use crate::StoreError;

verus! {

/// The offsets of a scan's records.
pub open spec fn record_offsets(recs: Seq<(int, Seq<Seq<u8>>)>) -> Seq<int> {
    recs.map_values(|e: (int, Seq<Seq<u8>>)| e.0)
}

/// The offsets of a scan's records, then the number of records.
pub open spec fn offsets_of(recs: Seq<(int, Seq<Seq<u8>>)>) -> Seq<int> {
    record_offsets(recs).push(recs.len() as int)
}

pub open spec fn int_view(s: Seq<usize>) -> Seq<int> {
    s.map_values(|o: usize| o as int)
}

pub struct OffsetIndex {
    offsets: Vec<usize>,
    end: usize,
}

impl View for OffsetIndex {
    type V = Seq<int>;

    closed spec fn view(&self) -> Seq<int> {
        int_view(self.offsets@)
    }
}

impl OffsetIndex {
    /// The length of the input the index was built from.
    pub closed spec fn end_offset(&self) -> int {
        self.end as int
    }

    /// The length of the input the index was built from.
    pub fn input_len(&self) -> (r: usize)
        ensures
            r == self.end_offset(),
    {
        self.end
    }

    /// The bytes from the start of record `n` up to the start of the next
    /// record, or to the end of the input for the last one.
    pub fn record_span(&self, n: usize) -> (r: Result<(usize, usize), StoreError>)
        requires
            self@.len() > 0,
        ensures
            match r {
                Ok((from, to)) => {
                    &&& n < self@.len() - 1
                    &&& from == self@[n as int]
                    &&& to == if n + 1 < self@.len() - 1 {
                        self@[n + 1]
                    } else {
                        self.end_offset()
                    }
                },
                Err(e) => n >= self@.len() - 1 && e == StoreError::OutOfRange,
            },
    {
        let total = self.offsets.len() - 1;
        if n >= total {
            Err(StoreError::OutOfRange)
        } else if n + 1 < total {
            Ok((self.offsets[n], self.offsets[n + 1]))
        } else {
            Ok((self.offsets[n], self.end))
        }
    }

    /// The number of records, one less than the number of entries.
    pub fn total_records(&self) -> (r: usize)
        requires
            self@.len() > 0,
        ensures
            r == self@.len() - 1,
    {
        self.offsets.len() - 1
    }

    /// The entry at `n`: the offset of record `n`, or the number of records.
    pub fn offset(&self, n: usize) -> (r: usize)
        requires
            n < self@.len(),
        ensures
            r == self@[n as int],
    {
        self.offsets[n]
    }
}

/// Builds the offset index in one pass over the data records.
pub fn build_offset_index(data: &Vec<u8>, has_header: bool) -> (r: Result<OffsetIndex, StoreError>)
    ensures
        match r {
            Ok(idx) => {
                &&& logical_scan(data@, has_header) is Some
                &&& idx@ == offsets_of(logical_scan(data@, has_header)->0)
                &&& idx.end_offset() == data@.len()
                &&& logical_scan(data@, has_header)->0.len() <= data@.len() <= usize::MAX
            },
            Err(e) => logical_scan(data@, has_header) is None && e == StoreError::MalformedRecord,
        },
{
    let mut pos = match skip_header(data, has_header) {
        Ok(p) => p,
        Err(e) => return Err(e),
    };
    let mut offsets: Vec<usize> = Vec::new();
    let ghost mut done: Seq<(int, Seq<Seq<u8>>)> = Seq::empty();
    proof {
        assert(int_view(offsets@) =~= record_offsets(done));
    }
    while pos < data.len()
        invariant
            pos <= data@.len(),
            body_start(data@, has_header) is Some,
            match scan_all(data@, pos as int) {
                None => logical_scan(data@, has_header) is None,
                Some(rest) => logical_scan(data@, has_header) == Some(done + rest),
            },
            int_view(offsets@) == record_offsets(done),
            offsets@.len() == done.len(),
            done.len() <= pos,
        decreases data@.len() - pos,
    {
        let p = skip_blank_lines(data, pos);
        if p < data.len() {
            match parse_record_at(data, p) {
                Ok((fields, next)) => {
                    let ghost x = (p as int, record_view(fields@));
                    proof {
                        if let Some(rest) = scan_all(data@, next as int) {
                            assert(done.push(x) + rest =~= done + (seq![x] + rest));
                        }
                    }
                    let ghost before = offsets@;
                    offsets.push(p);
                    proof {
                        assert(int_view(offsets@) =~= int_view(before).push(p as int));
                        assert(record_offsets(done.push(x)) =~= record_offsets(done).push(x.0));
                        assert(int_view(offsets@) =~= record_offsets(done.push(x)));
                        done = done.push(x);
                    }
                    pos = next;
                },
                Err(e) => return Err(e),
            }
        } else {
            pos = p;
        }
    }
    proof {
        assert(done + Seq::<(int, Seq<Seq<u8>>)>::empty() =~= done);
    }
    let count = offsets.len();
    offsets.push(count);
    proof {
        assert(int_view(offsets@) =~= offsets_of(done));
    }
    Ok(OffsetIndex { offsets, end: data.len() })
}

} // verus!
