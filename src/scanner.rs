//! Splitting comma-delimited bytes into records and fields; a record ends at
//! `\n`, `\r` or `\r\n`.
use vstd::prelude::*;

use crate::StoreError;

verus! {

pub const COMMA: u8 = 44;

pub const QUOTE: u8 = 34;

pub const NEWLINE: u8 = 10;

pub const RETURN: u8 = 13;

/// The position just past a record terminator that begins with `\r` at
/// `pos`: a following `\n` belongs to it.
pub open spec fn after_return(data: Seq<u8>, pos: int) -> int {
    if pos + 1 < data.len() && data[pos + 1] == NEWLINE {
        pos + 2
    } else {
        pos + 1
    }
}

/// Where the scanner stands inside the current field.
#[derive(Debug, Clone, Copy, PartialEq, Eq, Structural)]
pub enum ScanState {
    /// Nothing of the field read yet.
    FieldStart,
    /// Inside a field that did not open with a quote.
    Bare,
    /// Inside a quoted field.
    Quoted,
    /// Just after a quote inside a quoted field: it closes the field or,
    /// when doubled, stands for one quote.
    QuoteInQuoted,
}

/// One parsed record: its fields, in order.
pub type Record = Vec<Vec<u8>>;

pub open spec fn record_view(r: Seq<Vec<u8>>) -> Seq<Seq<u8>> {
    r.map_values(|f: Vec<u8>| f@)
}

/// The rest of a record scan from byte `pos`, given the fields already
/// complete, the current field and the state: the record's fields and the
/// position just past its terminator, or `None` when the quoting is broken.
pub open spec fn scan_from(
    data: Seq<u8>,
    pos: int,
    fields: Seq<Seq<u8>>,
    cur: Seq<u8>,
    st: ScanState,
) -> Option<(Seq<Seq<u8>>, int)>
    decreases data.len() - pos,
{
    if pos >= data.len() {
        if st == ScanState::Quoted {
            None
        } else {
            Some((fields.push(cur), data.len() as int))
        }
    } else {
        let b = data[pos];
        if st == ScanState::Quoted {
            if b == QUOTE {
                scan_from(data, pos + 1, fields, cur, ScanState::QuoteInQuoted)
            } else {
                scan_from(data, pos + 1, fields, cur.push(b), ScanState::Quoted)
            }
        } else if st == ScanState::QuoteInQuoted && b == QUOTE {
            scan_from(data, pos + 1, fields, cur.push(QUOTE), ScanState::Quoted)
        } else if b == COMMA {
            scan_from(data, pos + 1, fields.push(cur), Seq::empty(), ScanState::FieldStart)
        } else if b == NEWLINE {
            Some((fields.push(cur), pos + 1))
        } else if b == RETURN {
            Some((fields.push(cur), after_return(data, pos)))
        } else if st == ScanState::QuoteInQuoted {
            None
        } else if st == ScanState::FieldStart && b == QUOTE {
            scan_from(data, pos + 1, fields, cur, ScanState::Quoted)
        } else {
            scan_from(data, pos + 1, fields, cur.push(b), ScanState::Bare)
        }
    }
}

/// The record that begins at byte `pos`, with the position just past it.
pub open spec fn record_at(data: Seq<u8>, pos: int) -> Option<(Seq<Seq<u8>>, int)> {
    scan_from(data, pos, Seq::empty(), Seq::empty(), ScanState::FieldStart)
}

pub open spec fn is_line_end(b: u8) -> bool {
    b == NEWLINE || b == RETURN
}

/// The first position at or after `pos` that does not hold a line end:
/// blank lines hold no record.
pub open spec fn skip_blanks(data: Seq<u8>, pos: int) -> int
    decreases data.len() - pos,
{
    if pos < data.len() && is_line_end(data[pos]) {
        skip_blanks(data, pos + 1)
    } else {
        pos
    }
}

/// A full linear scan from byte `pos` to the end: each record's starting
/// offset with its fields, or `None` when some record is malformed. Blank
/// lines are passed over.
pub open spec fn scan_all(data: Seq<u8>, pos: int) -> Option<Seq<(int, Seq<Seq<u8>>)>>
    decreases data.len() - pos,
{
    let p = skip_blanks(data, pos);
    if p >= data.len() {
        Some(Seq::empty())
    } else {
        match record_at(data, p) {
            None => None,
            Some((fields, next)) => if pos <= p < next <= data.len() {
                match scan_all(data, next) {
                    None => None,
                    Some(rest) => Some(seq![(p, fields)] + rest),
                }
            } else {
                None
            },
        }
    }
}

/// Where the data records begin: past the first record when the input has a
/// header line.
pub open spec fn body_start(data: Seq<u8>, has_header: bool) -> Option<int> {
    let p = skip_blanks(data, 0);
    if !has_header || p >= data.len() {
        Some(0)
    } else {
        match record_at(data, p) {
            None => None,
            Some((_, next)) => Some(next),
        }
    }
}

/// Skipping blank lines moves forward and stays inside the data.
pub proof fn lemma_skip_blanks(data: Seq<u8>, pos: int)
    ensures
        pos <= skip_blanks(data, pos),
        pos <= data.len() ==> skip_blanks(data, pos) <= data.len(),
    decreases data.len() - pos,
{
    if pos < data.len() && is_line_end(data[pos]) {
        lemma_skip_blanks(data, pos + 1);
    }
}

/// Passes over the blank lines that begin at `pos`.
pub fn skip_blank_lines(data: &Vec<u8>, pos: usize) -> (r: usize)
    requires
        pos <= data@.len(),
    ensures
        r == skip_blanks(data@, pos as int),
        pos <= r <= data@.len(),
{
    let mut i = pos;
    while i < data.len() && (data[i] == NEWLINE || data[i] == RETURN)
        invariant
            pos <= i <= data@.len(),
            skip_blanks(data@, i as int) == skip_blanks(data@, pos as int),
        decreases data@.len() - i,
    {
        i = i + 1;
    }
    i
}

/// The data records of the input, in file order, each with its offset.
pub open spec fn logical_scan(data: Seq<u8>, has_header: bool) -> Option<
    Seq<(int, Seq<Seq<u8>>)>,
> {
    match body_start(data, has_header) {
        None => None,
        Some(start) => scan_all(data, start),
    }
}

proof fn lemma_push_view(fields: Seq<Vec<u8>>, cur: Vec<u8>)
    ensures
        record_view(fields.push(cur)) == record_view(fields).push(cur@),
{
    assert(record_view(fields.push(cur)) =~= record_view(fields).push(cur@));
}

/// Parses the one record that begins at byte `start`, and returns its fields
/// with the position just past its terminating newline (or the end of input).
pub fn parse_record_at(data: &Vec<u8>, start: usize) -> (r: Result<(Record, usize), StoreError>)
    requires
        start <= data@.len(),
    ensures
        match r {
            Ok((fields, next)) => record_at(data@, start as int) == Some(
                (record_view(fields@), next as int),
            ) && (start < data@.len() ==> start < next <= data@.len()),
            Err(e) => record_at(data@, start as int) is None && e == StoreError::MalformedRecord,
        },
{
    let mut fields: Vec<Vec<u8>> = Vec::new();
    let mut cur: Vec<u8> = Vec::new();
    let mut st = ScanState::FieldStart;
    let mut i: usize = start;
    proof {
        assert(record_view(fields@) =~= Seq::<Seq<u8>>::empty());
    }
    while i < data.len()
        invariant
            start <= i <= data@.len(),
            scan_from(data@, i as int, record_view(fields@), cur@, st) == record_at(
                data@,
                start as int,
            ),
        decreases data@.len() - i,
    {
        let b = data[i];
        if st == ScanState::Quoted {
            if b == QUOTE {
                st = ScanState::QuoteInQuoted;
            } else {
                cur.push(b);
            }
        } else if st == ScanState::QuoteInQuoted && b == QUOTE {
            cur.push(QUOTE);
            st = ScanState::Quoted;
        } else if b == COMMA {
            proof {
                lemma_push_view(fields@, cur);
            }
            fields.push(cur);
            cur = Vec::new();
            st = ScanState::FieldStart;
        } else if b == NEWLINE {
            proof {
                lemma_push_view(fields@, cur);
            }
            fields.push(cur);
            return Ok((fields, i + 1));
        } else if b == RETURN {
            proof {
                lemma_push_view(fields@, cur);
            }
            fields.push(cur);
            if i + 1 < data.len() && data[i + 1] == NEWLINE {
                return Ok((fields, i + 2));
            }
            return Ok((fields, i + 1));
        } else if st == ScanState::QuoteInQuoted {
            return Err(StoreError::MalformedRecord);
        } else if st == ScanState::FieldStart && b == QUOTE {
            st = ScanState::Quoted;
        } else {
            cur.push(b);
            st = ScanState::Bare;
        }
        i = i + 1;
    }
    if st == ScanState::Quoted {
        Err(StoreError::MalformedRecord)
    } else {
        proof {
            lemma_push_view(fields@, cur);
        }
        fields.push(cur);
        Ok((fields, data.len()))
    }
}

/// Each entry of a full scan is the record that begins at its offset, the
/// offsets lie inside the data, and each record ends at or before the offset
/// of the next.
pub proof fn lemma_scan_all_entries(data: Seq<u8>, pos: int)
    requires
        scan_all(data, pos) is Some,
    ensures
        forall|k: int|
            0 <= k < scan_all(data, pos)->0.len() ==> {
                let e = #[trigger] scan_all(data, pos)->0[k];
                &&& pos <= e.0 < data.len()
                &&& record_at(data, e.0) is Some
                &&& (record_at(data, e.0)->0).0 == e.1
                &&& e.0 < (record_at(data, e.0)->0).1 <= data.len()
                &&& k + 1 < scan_all(data, pos)->0.len() ==> (record_at(data, e.0)->0).1
                    <= scan_all(data, pos)->0[k + 1].0
            },
    decreases data.len() - pos,
{
    let p = skip_blanks(data, pos);
    lemma_skip_blanks(data, pos);
    if p < data.len() {
        let (fields, next) = record_at(data, p)->0;
        lemma_scan_all_entries(data, next);
        let all = scan_all(data, pos)->0;
        let rest = scan_all(data, next)->0;
        assert forall|k: int| 0 <= k < all.len() implies {
            let e = #[trigger] all[k];
            &&& pos <= e.0 < data.len()
            &&& record_at(data, e.0) is Some
            &&& (record_at(data, e.0)->0).0 == e.1
            &&& e.0 < (record_at(data, e.0)->0).1 <= data.len()
            &&& k + 1 < all.len() ==> (record_at(data, e.0)->0).1 <= all[k + 1].0
        } by {
            if k > 0 {
                assert(all[k] == rest[k - 1]);
                if k + 1 < all.len() {
                    assert(all[k + 1] == rest[k]);
                }
            } else if k + 1 < all.len() {
                assert(all[1] == rest[0]);
            }
        }
    }
}

/// A record scan that starts inside the data ends past its start, and no
/// later than the end of the data.
pub proof fn lemma_scan_from_advances(
    data: Seq<u8>,
    pos: int,
    fields: Seq<Seq<u8>>,
    cur: Seq<u8>,
    st: ScanState,
)
    requires
        scan_from(data, pos, fields, cur, st) is Some,
    ensures
        pos < data.len() ==> pos < (scan_from(data, pos, fields, cur, st)->0).1 <= data.len(),
    decreases data.len() - pos,
{
    if pos < data.len() {
        let q = data[pos];
        if st == ScanState::Quoted {
            if q == QUOTE {
                lemma_scan_from_advances(data, pos + 1, fields, cur, ScanState::QuoteInQuoted);
            } else {
                lemma_scan_from_advances(data, pos + 1, fields, cur.push(q), ScanState::Quoted);
            }
        } else if st == ScanState::QuoteInQuoted && q == QUOTE {
            lemma_scan_from_advances(data, pos + 1, fields, cur.push(QUOTE), ScanState::Quoted);
        } else if q == COMMA {
            lemma_scan_from_advances(data, pos + 1, fields.push(cur), Seq::empty(), ScanState::FieldStart);
        } else if q == NEWLINE || q == RETURN || st == ScanState::QuoteInQuoted {
        } else if st == ScanState::FieldStart && q == QUOTE {
            lemma_scan_from_advances(data, pos + 1, fields, cur, ScanState::Quoted);
        } else {
            lemma_scan_from_advances(data, pos + 1, fields, cur.push(q), ScanState::Bare);
        }
    }
}

/// A record scan reads no byte at or past its end, so it gives the same
/// record on any slice of the input that holds the record.
pub proof fn lemma_scan_from_slice(
    data: Seq<u8>,
    a: int,
    b: int,
    pos: int,
    fields: Seq<Seq<u8>>,
    cur: Seq<u8>,
    st: ScanState,
)
    requires
        0 <= a <= pos,
        a <= b <= data.len(),
        scan_from(data, pos, fields, cur, st) is Some,
        (scan_from(data, pos, fields, cur, st)->0).1 <= b,
    ensures
        scan_from(data.subrange(a, b), pos - a, fields, cur, st) == Some(
            (
                (scan_from(data, pos, fields, cur, st)->0).0,
                (scan_from(data, pos, fields, cur, st)->0).1 - a,
            ),
        ),
    decreases data.len() - pos,
{
    let sl = data.subrange(a, b);
    lemma_scan_from_advances(data, pos, fields, cur, st);
    if pos < data.len() {
        let q = data[pos];
        if pos < b {
            assert(sl[pos - a] == q);
        }
        if pos + 1 < b {
            assert(sl[pos + 1 - a] == data[pos + 1]);
        }
        if st == ScanState::Quoted {
            if q == QUOTE {
                lemma_scan_from_slice(data, a, b, pos + 1, fields, cur, ScanState::QuoteInQuoted);
            } else {
                lemma_scan_from_slice(data, a, b, pos + 1, fields, cur.push(q), ScanState::Quoted);
            }
        } else if st == ScanState::QuoteInQuoted && q == QUOTE {
            lemma_scan_from_slice(data, a, b, pos + 1, fields, cur.push(QUOTE), ScanState::Quoted);
        } else if q == COMMA {
            lemma_scan_from_slice(data, a, b, pos + 1, fields.push(cur), Seq::empty(), ScanState::FieldStart);
        } else if q == NEWLINE || q == RETURN || st == ScanState::QuoteInQuoted {
        } else if st == ScanState::FieldStart && q == QUOTE {
            lemma_scan_from_slice(data, a, b, pos + 1, fields, cur, ScanState::Quoted);
        } else {
            lemma_scan_from_slice(data, a, b, pos + 1, fields, cur.push(q), ScanState::Bare);
        }
    }
}

/// The position where the data records begin, past a header line when the
/// input declares one.
pub fn skip_header(data: &Vec<u8>, has_header: bool) -> (r: Result<usize, StoreError>)
    ensures
        match r {
            Ok(start) => body_start(data@, has_header) == Some(start as int) && start
                <= data@.len(),
            Err(e) => body_start(data@, has_header) is None && e == StoreError::MalformedRecord,
        },
{
    let p = skip_blank_lines(data, 0);
    if !has_header || p == data.len() {
        Ok(0)
    } else {
        match parse_record_at(data, p) {
            Ok((_, next)) => Ok(next),
            Err(e) => Err(e),
        }
    }
}

/// Reads every data record of the input in file order.
pub fn scan_records(data: &Vec<u8>, has_header: bool) -> (r: Result<Vec<Record>, StoreError>)
    ensures
        match r {
            Ok(recs) => logical_scan(data@, has_header) is Some && recs@.len() == logical_scan(
                data@,
                has_header,
            )->0.len() && forall|k: int|
                0 <= k < recs@.len() ==> record_view(#[trigger] recs@[k]@) == logical_scan(
                    data@,
                    has_header,
                )->0[k].1,
            Err(e) => logical_scan(data@, has_header) is None && e == StoreError::MalformedRecord,
        },
{
    let mut pos = match skip_header(data, has_header) {
        Ok(p) => p,
        Err(e) => return Err(e),
    };
    let mut recs: Vec<Record> = Vec::new();
    let ghost mut done: Seq<(int, Seq<Seq<u8>>)> = Seq::empty();
    while pos < data.len()
        invariant
            pos <= data@.len(),
            body_start(data@, has_header) is Some,
            match scan_all(data@, pos as int) {
                None => logical_scan(data@, has_header) is None,
                Some(rest) => logical_scan(data@, has_header) == Some(done + rest),
            },
            recs@.len() == done.len(),
            forall|k: int| 0 <= k < recs@.len() ==> record_view(#[trigger] recs@[k]@) == done[k].1,
        decreases data@.len() - pos,
    {
        let p = skip_blank_lines(data, pos);
        if p < data.len() {
            match parse_record_at(data, p) {
                Ok((fields, next)) => {
                    proof {
                        let x = (p as int, record_view(fields@));
                        if let Some(rest) = scan_all(data@, next as int) {
                            assert(done.push(x) + rest =~= done + (seq![x] + rest));
                        }
                        done = done.push(x);
                    }
                    recs.push(fields);
                    pos = next;
                },
                Err(e) => return Err(e),
            }
        } else {
            pos = p;
        }
    }
    proof {
        assert(done + Seq::<(int, Seq<Seq<u8>>)>::empty() =~= done);
    }
    Ok(recs)
}

} // verus!
