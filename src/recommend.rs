//! Reading the payload of a found record as a list of recommendations: each
//! field holds one or more `<item id>:<score>` entries separated by `|`.
//! The score is handed on as text.
use vstd::prelude::*;

use crate::key_index::{field_key, parse_key};
use crate::scanner::record_view;
use crate::store::LookupService;

verus! {

pub const COLON: u8 = 58;

pub const PIPE: u8 = 124;

/// Why a payload field is not a list of recommendations.
#[derive(Debug, Clone, Copy, PartialEq, Eq, Structural)]
pub enum FormatError {
    /// An entry holds no `:`.
    MissingSeparator,
    /// The text before an entry's `:` is not an unsigned 64-bit integer.
    BadItemId,
}

/// One recommendation: an item identifier and its score, as written.
#[derive(Debug, PartialEq, Eq)]
pub struct Recommendation {
    pub item_id: u64,
    pub score: Vec<u8>,
}

pub open spec fn rec_view(r: Recommendation) -> (u64, Seq<u8>) {
    (r.item_id, r.score@)
}

pub open spec fn recs_view(rs: Seq<Recommendation>) -> Seq<(u64, Seq<u8>)> {
    rs.map_values(|r: Recommendation| rec_view(r))
}

/// The rest of splitting `s` at each `sep` from `pos`, given the pieces
/// complete and the current piece.
pub open spec fn split_from(
    s: Seq<u8>,
    sep: u8,
    pos: int,
    cur: Seq<u8>,
    done: Seq<Seq<u8>>,
) -> Seq<Seq<u8>>
    decreases s.len() - pos,
{
    if pos >= s.len() {
        done.push(cur)
    } else if s[pos] == sep {
        split_from(s, sep, pos + 1, Seq::empty(), done.push(cur))
    } else {
        split_from(s, sep, pos + 1, cur.push(s[pos]), done)
    }
}

/// The pieces of `s` between the occurrences of `sep`.
pub open spec fn pieces(s: Seq<u8>, sep: u8) -> Seq<Seq<u8>> {
    split_from(s, sep, 0, Seq::empty(), Seq::empty())
}

/// The position of the first `:` at or after `pos`, or -1.
pub open spec fn first_colon(s: Seq<u8>, pos: int) -> int
    decreases s.len() - pos,
{
    if pos >= s.len() {
        -1
    } else if s[pos] == COLON {
        pos
    } else {
        first_colon(s, pos + 1)
    }
}

/// One entry: the item id before its first `:`, the score text after it.
pub open spec fn entry_of(e: Seq<u8>) -> Result<(u64, Seq<u8>), FormatError> {
    let c = first_colon(e, 0);
    if c < 0 {
        Err(FormatError::MissingSeparator)
    } else {
        match field_key(e.subrange(0, c)) {
            None => Err(FormatError::BadItemId),
            Some(id) => Ok((id, e.subrange(c + 1, e.len() as int))),
        }
    }
}

/// The entries of a list, in order; the first failing entry's error.
pub open spec fn entries_of(es: Seq<Seq<u8>>) -> Result<Seq<(u64, Seq<u8>)>, FormatError>
    decreases es.len(),
{
    if es.len() == 0 {
        Ok(Seq::empty())
    } else {
        match entries_of(es.drop_last()) {
            Err(e) => Err(e),
            Ok(a) => match entry_of(es.last()) {
                Err(e) => Err(e),
                Ok(x) => Ok(a.push(x)),
            },
        }
    }
}

/// The recommendations of a payload: the entries of each field in turn.
pub open spec fn recommendations_of(payload: Seq<Seq<u8>>) -> Result<
    Seq<(u64, Seq<u8>)>,
    FormatError,
>
    decreases payload.len(),
{
    if payload.len() == 0 {
        Ok(Seq::empty())
    } else {
        match recommendations_of(payload.drop_last()) {
            Err(e) => Err(e),
            Ok(a) => match entries_of(pieces(payload.last(), PIPE)) {
                Err(e) => Err(e),
                Ok(b) => Ok(a + b),
            },
        }
    }
}

proof fn lemma_entries_prefix_err(es: Seq<Seq<u8>>, k: int)
    requires
        0 <= k <= es.len(),
        entries_of(es.take(k)) is Err,
    ensures
        entries_of(es) == entries_of(es.take(k)),
    decreases es.len(),
{
    if k < es.len() {
        assert(es.drop_last().take(k) =~= es.take(k));
        lemma_entries_prefix_err(es.drop_last(), k);
    } else {
        assert(es.take(k) =~= es);
    }
}

proof fn lemma_recommendations_prefix_err(p: Seq<Seq<u8>>, k: int)
    requires
        0 <= k <= p.len(),
        recommendations_of(p.take(k)) is Err,
    ensures
        recommendations_of(p) == recommendations_of(p.take(k)),
    decreases p.len(),
{
    if k < p.len() {
        assert(p.drop_last().take(k) =~= p.take(k));
        lemma_recommendations_prefix_err(p.drop_last(), k);
    } else {
        assert(p.take(k) =~= p);
    }
}

proof fn lemma_push_piece(done: Seq<Vec<u8>>, cur: Vec<u8>)
    ensures
        record_view(done.push(cur)) == record_view(done).push(cur@),
{
    assert(record_view(done.push(cur)) =~= record_view(done).push(cur@));
}

/// Splits `s` at each occurrence of `sep`.
pub fn split_bytes(s: &Vec<u8>, sep: u8) -> (r: Vec<Vec<u8>>)
    ensures
        record_view(r@) == pieces(s@, sep),
{
    let mut done: Vec<Vec<u8>> = Vec::new();
    let mut cur: Vec<u8> = Vec::new();
    let mut i: usize = 0;
    proof {
        assert(record_view(done@) =~= Seq::<Seq<u8>>::empty());
    }
    while i < s.len()
        invariant
            i <= s@.len(),
            split_from(s@, sep, i as int, cur@, record_view(done@)) == pieces(s@, sep),
        decreases s@.len() - i,
    {
        let b = s[i];
        if b == sep {
            proof {
                lemma_push_piece(done@, cur);
            }
            done.push(cur);
            cur = Vec::new();
        } else {
            cur.push(b);
        }
        i = i + 1;
    }
    proof {
        lemma_push_piece(done@, cur);
    }
    done.push(cur);
    done
}

/// Copies `s[from..to]`.
fn copy_range(s: &Vec<u8>, from: usize, to: usize) -> (r: Vec<u8>)
    requires
        from <= to <= s@.len(),
    ensures
        r@ == s@.subrange(from as int, to as int),
{
    let mut r: Vec<u8> = Vec::new();
    let mut i: usize = from;
    while i < to
        invariant
            from <= i <= to <= s@.len(),
            r@ == s@.subrange(from as int, i as int),
        decreases to - i,
    {
        r.push(s[i]);
        proof {
            assert(r@ =~= s@.subrange(from as int, i + 1));
        }
        i = i + 1;
    }
    r
}

/// Reads one `<item id>:<score>` entry.
pub fn parse_entry(e: &Vec<u8>) -> (r: Result<Recommendation, FormatError>)
    ensures
        match r {
            Ok(rec) => entry_of(e@) == Ok::<(u64, Seq<u8>), FormatError>(rec_view(rec)),
            Err(err) => entry_of(e@) == Err::<(u64, Seq<u8>), FormatError>(err),
        },
{
    let mut c: usize = 0;
    while c < e.len() && e[c] != COLON
        invariant
            c <= e@.len(),
            first_colon(e@, c as int) == first_colon(e@, 0),
        decreases e@.len() - c,
    {
        c = c + 1;
    }
    if c == e.len() {
        return Err(FormatError::MissingSeparator);
    }
    let id_text = copy_range(e, 0, c);
    match parse_key(&id_text) {
        None => Err(FormatError::BadItemId),
        Some(item_id) => {
            let score = copy_range(e, c + 1, e.len());
            Ok(Recommendation { item_id, score })
        },
    }
}

/// Reads every entry of one payload field, in order.
pub fn parse_field(f: &Vec<u8>) -> (r: Result<Vec<Recommendation>, FormatError>)
    ensures
        match r {
            Ok(rs) => entries_of(pieces(f@, PIPE)) == Ok::<Seq<(u64, Seq<u8>)>, FormatError>(
                recs_view(rs@),
            ),
            Err(err) => entries_of(pieces(f@, PIPE)) == Err::<Seq<(u64, Seq<u8>)>, FormatError>(
                err,
            ),
        },
{
    let es = split_bytes(f, PIPE);
    let ghost ev = pieces(f@, PIPE);
    let mut out: Vec<Recommendation> = Vec::new();
    let mut i: usize = 0;
    proof {
        assert(ev.take(0) =~= Seq::<Seq<u8>>::empty());
        assert(recs_view(out@) =~= Seq::<(u64, Seq<u8>)>::empty());
    }
    while i < es.len()
        invariant
            i <= es@.len(),
            record_view(es@) == ev,
            ev == pieces(f@, PIPE),
            entries_of(ev.take(i as int)) == Ok::<Seq<(u64, Seq<u8>)>, FormatError>(
                recs_view(out@),
            ),
        decreases es@.len() - i,
    {
        proof {
            assert(ev.take(i + 1).drop_last() =~= ev.take(i as int));
            assert(ev.take(i + 1).last() == es@[i as int]@);
        }
        match parse_entry(&es[i]) {
            Ok(rec) => {
                let ghost before = out@;
                out.push(rec);
                proof {
                    assert(recs_view(out@) =~= recs_view(before).push(rec_view(rec)));
                }
            },
            Err(err) => {
                proof {
                    assert(entries_of(ev.take(i + 1)) == Err::<Seq<(u64, Seq<u8>)>, FormatError>(
                        err,
                    ));
                    lemma_entries_prefix_err(ev, i + 1);
                }
                return Err(err);
            },
        }
        i = i + 1;
    }
    proof {
        assert(ev.take(es@.len() as int) =~= ev);
    }
    Ok(out)
}

/// Reads the recommendations of a payload: each field's entries in turn.
pub fn parse_recommendations(payload: &Vec<Vec<u8>>) -> (r: Result<
    Vec<Recommendation>,
    FormatError,
>)
    ensures
        match r {
            Ok(rs) => recommendations_of(record_view(payload@)) == Ok::<
                Seq<(u64, Seq<u8>)>,
                FormatError,
            >(recs_view(rs@)),
            Err(err) => recommendations_of(record_view(payload@)) == Err::<
                Seq<(u64, Seq<u8>)>,
                FormatError,
            >(err),
        },
{
    let ghost pv = record_view(payload@);
    let mut out: Vec<Recommendation> = Vec::new();
    let mut i: usize = 0;
    proof {
        assert(pv.take(0) =~= Seq::<Seq<u8>>::empty());
        assert(recs_view(out@) =~= Seq::<(u64, Seq<u8>)>::empty());
    }
    while i < payload.len()
        invariant
            i <= payload@.len(),
            pv == record_view(payload@),
            recommendations_of(pv.take(i as int)) == Ok::<Seq<(u64, Seq<u8>)>, FormatError>(
                recs_view(out@),
            ),
        decreases payload@.len() - i,
    {
        proof {
            assert(pv.take(i + 1).drop_last() =~= pv.take(i as int));
            assert(pv.take(i + 1).last() == payload@[i as int]@);
        }
        match parse_field(&payload[i]) {
            Ok(rs) => {
                let mut rs = rs;
                let ghost before = out@;
                let ghost added = rs@;
                out.append(&mut rs);
                proof {
                    assert(recs_view(out@) =~= recs_view(before) + recs_view(added));
                }
            },
            Err(err) => {
                proof {
                    lemma_recommendations_prefix_err(pv, i + 1);
                }
                return Err(err);
            },
        }
        i = i + 1;
    }
    proof {
        assert(pv.take(payload@.len() as int) =~= pv);
    }
    Ok(out)
}

/// The status of a response whose key was found.
pub const STATUS_FOUND: u64 = 200;

/// The status of a response whose key was not found.
pub const STATUS_NOT_FOUND: u64 = 404;

/// The recommendations stored under `key`: `None` where no record carries
/// it, else the entries of the record's fields after the key column.
pub fn recommendations_for(service: &LookupService, key: u64) -> (r: Result<
    Option<Vec<Recommendation>>,
    FormatError,
>)
    requires
        service.wf(),
    ensures
        match r {
            Ok(None) => !service.key_view().contains_key(key),
            Ok(Some(rs)) => service.key_view().contains_key(key) && recommendations_of(
                service.records()[service.key_view()[key] as int].1.drop_first(),
            ) == Ok::<Seq<(u64, Seq<u8>)>, FormatError>(recs_view(rs@)),
            Err(e) => service.key_view().contains_key(key) && recommendations_of(
                service.records()[service.key_view()[key] as int].1.drop_first(),
            ) == Err::<Seq<(u64, Seq<u8>)>, FormatError>(e),
        },
{
    match service.lookup(key) {
        None => Ok(None),
        Some(payload) => match parse_recommendations(&payload) {
            Ok(rs) => Ok(Some(rs)),
            Err(e) => Err(e),
        },
    }
}

/// The response status for a lookup: found or not found.
pub fn response_status(found: bool) -> (r: u64)
    ensures
        r == if found {
            STATUS_FOUND
        } else {
            STATUS_NOT_FOUND
        },
{
    if found {
        STATUS_FOUND
    } else {
        STATUS_NOT_FOUND
    }
}

} // verus!
