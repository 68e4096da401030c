//! The key index: the integer in each record's first field, mapped to the
//! record's logical number.
use vstd::prelude::*;

use std::collections::BTreeMap;

use crate::scanner::{skip_blank_lines, body_start, logical_scan, parse_record_at, record_view, scan_all, skip_header};
use crate::StoreError;

verus! {

pub open spec fn is_digit(b: u8) -> bool {
    48 <= b <= 57
}

pub open spec fn all_digits(s: Seq<u8>) -> bool {
    forall|i: int| 0 <= i < s.len() ==> is_digit(#[trigger] s[i])
}

/// The number that a string of decimal digits writes.
pub open spec fn digits_value(s: Seq<u8>) -> int
    decreases s.len(),
{
    if s.len() == 0 {
        0
    } else {
        digits_value(s.drop_last()) * 10 + (s.last() - 48)
    }
}

pub const PLUS: u8 = 43;

/// The digits of a field: all of it, or what follows one leading `+`.
pub open spec fn digits_part(s: Seq<u8>) -> Seq<u8> {
    if s.len() > 0 && s[0] == PLUS {
        s.drop_first()
    } else {
        s
    }
}

/// The key that a first field holds: an optional `+`, then a non-empty run of
/// decimal digits whose value fits in 64 bits.
pub open spec fn field_key(s: Seq<u8>) -> Option<u64> {
    let d = digits_part(s);
    if d.len() > 0 && all_digits(d) && digits_value(d) <= u64::MAX {
        Some(digits_value(d) as u64)
    } else {
        None
    }
}

/// The key of a record, read from its first field.
pub open spec fn key_of(fields: Seq<Seq<u8>>) -> Option<u64> {
    if fields.len() > 0 {
        field_key(fields[0])
    } else {
        None
    }
}

/// Each record's key mapped to its logical number, a later record taking a
/// key over from an earlier one; `None` when some key does not parse.
pub open spec fn key_map(recs: Seq<(int, Seq<Seq<u8>>)>) -> Option<Map<u64, usize>>
    decreases recs.len(),
{
    if recs.len() == 0 {
        Some(Map::empty())
    } else {
        match key_map(recs.drop_last()) {
            None => None,
            Some(m) => match key_of(recs.last().1) {
                None => None,
                Some(k) => Some(m.insert(k, (recs.len() - 1) as usize)),
            },
        }
    }
}

proof fn lemma_prefix_value(s: Seq<u8>, k: int)
    requires
        0 <= k <= s.len(),
        all_digits(s),
    ensures
        0 <= digits_value(s.take(k)) <= digits_value(s),
    decreases s.len(),
{
    if s.len() == 0 {
        assert(s.take(k) =~= s);
    } else {
        let d = s.drop_last();
        assert(all_digits(d)) by {
            assert forall|i: int| 0 <= i < d.len() implies is_digit(#[trigger] d[i]) by {
                assert(d[i] == s[i]);
            }
        }
        assert(is_digit(s[s.len() - 1]));
        if k == s.len() {
            assert(s.take(k) =~= s);
            lemma_prefix_value(d, 0);
        } else {
            assert(s.take(k) =~= d.take(k));
            lemma_prefix_value(d, k);
        }
    }
}

/// Parses a first field as an unsigned 64-bit key: an optional `+`, then
/// decimal digits.
pub fn parse_key(f: &Vec<u8>) -> (r: Option<u64>)
    ensures
        r == field_key(f@),
{
    let start: usize = if f.len() > 0 && f[0] == PLUS {
        1
    } else {
        0
    };
    let ghost d = digits_part(f@);
    proof {
        assert(d =~= f@.subrange(start as int, f@.len() as int));
    }
    if start == f.len() {
        return None;
    }
    let mut v: u64 = 0;
    let mut i: usize = start;
    proof {
        assert(d.take(0) =~= Seq::<u8>::empty());
    }
    while i < f.len()
        invariant
            start <= i <= f@.len(),
            start < f@.len(),
            d == f@.subrange(start as int, f@.len() as int),
            d == digits_part(f@),
            forall|j: int| 0 <= j < i - start ==> is_digit(#[trigger] d[j]),
            v == digits_value(d.take(i - start)),
        decreases f@.len() - i,
    {
        let b = f[i];
        proof {
            assert(d[i - start] == b);
        }
        if b < 48 || b > 57 {
            return None;
        }
        let dg = (b - 48) as u64;
        proof {
            assert(d.take(i - start + 1).drop_last() =~= d.take(i - start));
        }
        if v > (u64::MAX - dg) / 10 {
            proof {
                assert(v * 10 + dg > u64::MAX) by (nonlinear_arith)
                    requires
                        v > (u64::MAX - dg) / 10,
                        dg <= 9,
                ;
                if all_digits(d) {
                    lemma_prefix_value(d, i - start + 1);
                }
            }
            return None;
        }
        proof {
            assert(v * 10 + dg <= u64::MAX) by (nonlinear_arith)
                requires
                    v <= (u64::MAX - dg) / 10,
                    dg <= 9,
            ;
        }
        v = v * 10 + dg;
        i = i + 1;
    }
    proof {
        assert(d.take(d.len() as int) =~= d);
    }
    Some(v)
}

/// What the key map holds: every record's key is in it, and each key goes to
/// the last record that carries it.
pub proof fn lemma_key_map(recs: Seq<(int, Seq<Seq<u8>>)>)
    requires
        key_map(recs) is Some,
        recs.len() <= usize::MAX,
    ensures
        forall|j: int| 0 <= j < recs.len() ==> (#[trigger] key_of(recs[j].1)) is Some,
        forall|j: int|
            0 <= j < recs.len() ==> key_map(recs)->0.contains_key(
                (#[trigger] key_of(recs[j].1))->0,
            ),
        forall|k: u64| #[trigger]
            key_map(recs)->0.contains_key(k) ==> {
                let j = key_map(recs)->0[k] as int;
                &&& 0 <= j < recs.len()
                &&& key_of(recs[j].1) == Some(k)
                &&& forall|i: int| j < i < recs.len() ==> key_of(#[trigger] recs[i].1) != Some(k)
            },
    decreases recs.len(),
{
    if recs.len() > 0 {
        let d = recs.drop_last();
        lemma_key_map(d);
        let m = key_map(d)->0;
        let kl = key_of(recs.last().1)->0;
        assert forall|j: int| 0 <= j < d.len() implies #[trigger] recs[j] == d[j] by {}
        assert forall|j: int| 0 <= j < recs.len() implies key_map(recs)->0.contains_key(
            (#[trigger] key_of(recs[j].1))->0,
        ) by {
            if j < d.len() {
                assert(key_of(d[j].1) == key_of(recs[j].1));
            }
        }
        assert forall|k: u64| #[trigger] key_map(recs)->0.contains_key(k) implies {
            let j = key_map(recs)->0[k] as int;
            &&& 0 <= j < recs.len()
            &&& key_of(recs[j].1) == Some(k)
            &&& forall|i: int| j < i < recs.len() ==> key_of(#[trigger] recs[i].1) != Some(k)
        } by {
            if k != kl {
                assert(m.contains_key(k));
                let j = m[k] as int;
                assert(key_of(recs[j].1) == Some(k));
                assert forall|i: int| j < i < recs.len() implies key_of(
                    #[trigger] recs[i].1,
                ) != Some(k) by {
                    if i < d.len() {
                        assert(recs[i] == d[i]);
                    }
                }
            }
        }
    }
}

/// The key index: a key's logical record number.
pub struct KeyIndex {
    map: BTreeMap<u64, usize>,
}

impl View for KeyIndex {
    type V = Map<u64, usize>;

    closed spec fn view(&self) -> Map<u64, usize> {
        self.map@
    }
}

impl KeyIndex {
    /// The record number of `key`, if some record carries it.
    pub fn get(&self, key: u64) -> (r: Option<usize>)
        ensures
            match r {
                Some(j) => self@.contains_key(key) && self@[key] == j,
                None => !self@.contains_key(key),
            },
    {
        broadcast use vstd::std_specs::btree::group_btree_axioms;
        broadcast use vstd::laws_cmp::group_laws_cmp;

        match self.map.get(&key) {
            Some(j) => Some(*j),
            None => None,
        }
    }
}

/// Builds the key index in one pass over the data records: each record's
/// first field, parsed as a key, maps to the record's logical number.
/// A malformed record fails the build first; then a key that does not parse.
pub fn build_key_index(data: &Vec<u8>, has_header: bool) -> (r: Result<KeyIndex, StoreError>)
    ensures
        match r {
            Ok(idx) => logical_scan(data@, has_header) is Some && key_map(
                logical_scan(data@, has_header)->0,
            ) == Some(idx@),
            Err(e) => if logical_scan(data@, has_header) is None {
                e == StoreError::MalformedRecord
            } else {
                key_map(logical_scan(data@, has_header)->0) is None && e
                    == StoreError::NonNumericKey
            },
        },
{
    broadcast use vstd::std_specs::btree::group_btree_axioms;
    broadcast use vstd::laws_cmp::group_laws_cmp;

    let mut pos = match skip_header(data, has_header) {
        Ok(p) => p,
        Err(e) => return Err(e),
    };
    let mut map: BTreeMap<u64, usize> = BTreeMap::new();
    let mut n: usize = 0;
    let mut bad = false;
    let ghost mut done: Seq<(int, Seq<Seq<u8>>)> = Seq::empty();
    while pos < data.len()
        invariant
            pos <= data@.len(),
            n <= pos,
            n == done.len(),
            body_start(data@, has_header) is Some,
            match scan_all(data@, pos as int) {
                None => logical_scan(data@, has_header) is None,
                Some(rest) => logical_scan(data@, has_header) == Some(done + rest),
            },
            bad <==> key_map(done) is None,
            !bad ==> map@ == key_map(done)->0,
        decreases data@.len() - pos,
    {
        let p = skip_blank_lines(data, pos);
        if p < data.len() {
            match parse_record_at(data, p) {
                Ok((fields, next)) => {
                    let key = if fields.len() > 0 {
                        parse_key(&fields[0])
                    } else {
                        None
                    };
                    proof {
                        let x = (p as int, record_view(fields@));
                        if let Some(rest) = scan_all(data@, next as int) {
                            assert(done.push(x) + rest =~= done + (seq![x] + rest));
                        }
                        assert(done.push(x).drop_last() =~= done);
                        if fields.len() > 0 {
                            assert(record_view(fields@)[0] == fields@[0]@);
                        }
                        done = done.push(x);
                    }
                    match key {
                        Some(k) => {
                            if !bad {
                                map.insert(k, n);
                            }
                        },
                        None => {
                            bad = true;
                        },
                    }
                    n = n + 1;
                    pos = next;
                },
                Err(e) => return Err(e),
            }
        } else {
            pos = p;
        }
    }
    proof {
        assert(done + Seq::<(int, Seq<Seq<u8>>)>::empty() =~= done);
    }
    if bad {
        Err(StoreError::NonNumericKey)
    } else {
        Ok(KeyIndex { map })
    }
}

} // verus!
