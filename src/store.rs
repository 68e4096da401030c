//! The indexed store, which fetches one record by its logical number, and
//! the lookup service, which finds a record by its key.
use vstd::prelude::*;

use crate::key_index::{build_key_index, key_map, key_of, lemma_key_map, KeyIndex};
use crate::offset_index::{build_offset_index, offsets_of, OffsetIndex};
use crate::scanner::{
    body_start, lemma_scan_all_entries, lemma_scan_from_advances, lemma_skip_blanks, skip_blanks, lemma_scan_from_slice, logical_scan, parse_record_at,
    record_at, record_view, Record, ScanState,
};
use crate::StoreError;

verus! {

/// The source bytes together with the offset index built from them.
pub struct IndexedStore {
    data: Vec<u8>,
    index: OffsetIndex,
    has_header: Ghost<bool>,
}

impl IndexedStore {
    /// The bytes of the source.
    pub closed spec fn source(&self) -> Seq<u8> {
        self.data@
    }

    /// Whether the source's first line is a header.
    pub closed spec fn header(&self) -> bool {
        self.has_header@
    }

    /// The data records of the source, each with its offset.
    pub closed spec fn records(&self) -> Seq<(int, Seq<Seq<u8>>)> {
        logical_scan(self.data@, self.has_header@)->0
    }

    /// The offset index, the record count at its end.
    pub closed spec fn offsets(&self) -> Seq<int> {
        self.index@
    }

    pub closed spec fn wf(&self) -> bool {
        &&& logical_scan(self.data@, self.has_header@) is Some
        &&& self.index@ == offsets_of(self.records())
        &&& self.index.end_offset() == self.data@.len()
        &&& self.records().len() <= usize::MAX
    }

    /// Builds the offset index over `data` and keeps both.
    pub fn open(data: Vec<u8>, has_header: bool) -> (r: Result<IndexedStore, StoreError>)
        ensures
            match r {
                Ok(s) => {
                    &&& s.wf()
                    &&& s.source() == data@
                    &&& s.header() == has_header
                    &&& logical_scan(data@, has_header) == Some(s.records())
                    &&& s.offsets() == offsets_of(s.records())
                },
                Err(e) => logical_scan(data@, has_header) is None && e
                    == StoreError::MalformedRecord,
            },
    {
        match build_offset_index(&data, has_header) {
            Ok(index) => Ok(IndexedStore { data, index, has_header: Ghost(has_header) }),
            Err(e) => Err(e),
        }
    }

    /// The offset index that the store seeks by.
    pub fn offset_index(&self) -> (r: &OffsetIndex)
        requires
            self.wf(),
        ensures
            r@ == self.offsets(),
            r.end_offset() == self.source().len(),
    {
        &self.index
    }

    /// The number of data records.
    pub fn total_records(&self) -> (r: usize)
        requires
            self.wf(),
        ensures
            r == self.records().len(),
    {
        self.index.total_records()
    }

    /// Fetches record `n` by parsing the source at its offset: the same
    /// fields that a linear scan finds as its `n`-th record.
    pub fn fetch(&self, n: usize) -> (r: Result<Record, StoreError>)
        requires
            self.wf(),
        ensures
            match r {
                Ok(rec) => n < self.records().len() && record_view(rec@) == self.records()[n as int].1,
                Err(e) => n >= self.records().len() && e == StoreError::OutOfRange,
            },
    {
        let total = self.index.total_records();
        if n >= total {
            return Err(StoreError::OutOfRange);
        }
        let off = self.index.offset(n);
        proof {
            let start = body_start(self.data@, self.has_header@)->0;
            lemma_scan_all_entries(self.data@, start);
            assert(self.records()[n as int].0 == off);
        }
        match parse_record_at(&self.data, off) {
            Ok((rec, _)) => Ok(rec),
            Err(e) => Err(e),
        }
    }
}

/// The key index and the indexed store, built from the same source.
pub struct LookupService {
    keys: KeyIndex,
    store: IndexedStore,
}

impl LookupService {
    pub closed spec fn source(&self) -> Seq<u8> {
        self.store.source()
    }

    pub closed spec fn header(&self) -> bool {
        self.store.header()
    }

    pub closed spec fn records(&self) -> Seq<(int, Seq<Seq<u8>>)> {
        self.store.records()
    }

    /// The key index as a map from key to logical record number.
    pub closed spec fn key_view(&self) -> Map<u64, usize> {
        self.keys@
    }

    pub closed spec fn offsets(&self) -> Seq<int> {
        self.store.offsets()
    }

    pub closed spec fn wf(&self) -> bool {
        &&& self.store.wf()
        &&& key_map(self.store.records()) == Some(self.keys@)
    }

    /// Builds the key index, then the offset index, from `data`.
    pub fn build(data: Vec<u8>, has_header: bool) -> (r: Result<LookupService, StoreError>)
        ensures
            match r {
                Ok(s) => {
                    &&& s.wf()
                    &&& s.source() == data@
                    &&& s.header() == has_header
                    &&& logical_scan(data@, has_header) == Some(s.records())
                    &&& key_map(s.records()) == Some(s.key_view())
                    &&& s.offsets() == offsets_of(s.records())
                },
                Err(e) => if logical_scan(data@, has_header) is None {
                    e == StoreError::MalformedRecord
                } else {
                    key_map(logical_scan(data@, has_header)->0) is None && e
                        == StoreError::NonNumericKey
                },
            },
    {
        let keys = match build_key_index(&data, has_header) {
            Ok(k) => k,
            Err(e) => return Err(e),
        };
        match IndexedStore::open(data, has_header) {
            Ok(store) => Ok(LookupService { keys, store }),
            Err(e) => Err(e),
        }
    }

    /// The key index.
    pub fn key_index(&self) -> (r: &KeyIndex)
        ensures
            r@ == self.key_view(),
    {
        &self.keys
    }

    /// The indexed store.
    pub fn store(&self) -> (r: &IndexedStore)
        requires
            self.wf(),
        ensures
            r.wf(),
            r.records() == self.records(),
            r.offsets() == self.offsets(),
            r.source() == self.source(),
            r.header() == self.header(),
    {
        &self.store
    }

    /// The whole record that carries `key`, the last one where several do;
    /// `None` where none does.
    pub fn find(&self, key: u64) -> (r: Option<Record>)
        requires
            self.wf(),
        ensures
            match r {
                Some(rec) => self.key_view().contains_key(key) && record_view(rec@)
                    == self.records()[self.key_view()[key] as int].1,
                None => !self.key_view().contains_key(key),
            },
    {
        match self.keys.get(key) {
            None => None,
            Some(j) => {
                proof {
                    lemma_key_map(self.records());
                }
                match self.store.fetch(j) {
                    Ok(rec) => Some(rec),
                    Err(_) => None,
                }
            },
        }
    }

    /// The fields after the key column of the record that carries `key`;
    /// `None` where no record does.
    pub fn lookup(&self, key: u64) -> (r: Option<Record>)
        requires
            self.wf(),
        ensures
            match r {
                Some(p) => self.key_view().contains_key(key) && record_view(p@) == self.records()[
                    self.key_view()[key] as int].1.drop_first(),
                None => !self.key_view().contains_key(key),
            },
    {
        match self.find(key) {
            None => None,
            Some(rec) => {
                let mut rec = rec;
                proof {
                    lemma_key_map(self.records());
                }
                let _ = rec.remove(0);
                proof {
                    let rv = self.records()[self.key_view()[key] as int].1;
                    assert(record_view(rec@) =~= rv.drop_first());
                }
                Some(rec)
            },
        }
    }
}

/// What a well-formed store holds: its records are those of a full scan of
/// its source, and its offset index lists their offsets, then their number.
pub proof fn lemma_store_wf(s: &IndexedStore)
    requires
        s.wf(),
    ensures
        logical_scan(s.source(), s.header()) == Some(s.records()),
        s.offsets() == offsets_of(s.records()),
        s.records().len() <= usize::MAX,
{
}

/// What a well-formed service holds: its records are those of a full scan of
/// its source, its key index is their key map, and each key resolves to a
/// record below the record count that carries that key.
pub proof fn lemma_service_wf(s: &LookupService)
    requires
        s.wf(),
    ensures
        logical_scan(s.source(), s.header()) == Some(s.records()),
        key_map(s.records()) == Some(s.key_view()),
        s.offsets() == offsets_of(s.records()),
        forall|k: u64| #[trigger]
            s.key_view().contains_key(k) ==> s.key_view()[k] < s.records().len() && key_of(
                s.records()[s.key_view()[k] as int].1,
            ) == Some(k),
{
    lemma_key_map(s.records());
}

/// Record `n` parsed from the bytes of its span alone, as a reader that
/// seeks to the span's start and reads up to its end does, gives the fields
/// of the scan's `n`-th record.
pub proof fn lemma_span_holds_record(s: &IndexedStore, n: int)
    requires
        s.wf(),
        0 <= n < s.records().len(),
    ensures
        ({
            let from = s.offsets()[n];
            let to = if n + 1 < s.records().len() {
                s.offsets()[n + 1]
            } else {
                s.source().len() as int
            };
            &&& 0 <= from <= to <= s.source().len()
            &&& record_at(s.source().subrange(from, to), 0) is Some
            &&& (record_at(s.source().subrange(from, to), 0)->0).0 == s.records()[n].1
        }),
{
    let data = s.source();
    let recs = s.records();
    let start = body_start(data, s.header())->0;
    lemma_scan_all_entries(data, start);
    let from = recs[n].0;
    let to = if n + 1 < recs.len() {
        recs[n + 1].0
    } else {
        data.len() as int
    };
    assert(s.offsets()[n] == from);
    if n + 1 < recs.len() {
        assert(s.offsets()[n + 1] == to);
    }
    lemma_skip_blanks(data, 0);
    let p = skip_blanks(data, 0);
    if p < data.len() {
        lemma_scan_from_advances(data, p, Seq::empty(), Seq::empty(), ScanState::FieldStart);
    }
    lemma_scan_from_slice(
        data,
        from,
        to,
        from,
        Seq::empty(),
        Seq::empty(),
        ScanState::FieldStart,
    );
}

/// Builds the lookup service that the front ends serve: both indices
/// over the source bytes, whose first line is a data record.
pub fn rocket(data: Vec<u8>) -> (r: Result<LookupService, StoreError>)
    ensures
        match r {
            Ok(s) => {
                &&& s.wf()
                &&& s.source() == data@
                &&& !s.header()
                &&& logical_scan(data@, false) == Some(s.records())
                &&& key_map(s.records()) == Some(s.key_view())
                &&& s.offsets() == offsets_of(s.records())
            },
            Err(e) => if logical_scan(data@, false) is None {
                e == StoreError::MalformedRecord
            } else {
                key_map(logical_scan(data@, false)->0) is None && e == StoreError::NonNumericKey
            },
        },
{
    LookupService::build(data, false)
}

/// A key that some record carries is in the key index, and the record it
/// resolves to carries that key in its first field.
pub proof fn lemma_present_key_found(s: &LookupService, key: u64, j: int)
    requires
        s.wf(),
        0 <= j < s.records().len(),
        key_of(s.records()[j].1) == Some(key),
    ensures
        s.key_view().contains_key(key),
        key_of(s.records()[s.key_view()[key] as int].1) == Some(key),
{
    lemma_key_map(s.records());
}

/// A key that no record carries is absent from the key index: looking it up
/// gives "not found".
pub proof fn lemma_absent_key_not_found(s: &LookupService, key: u64)
    requires
        s.wf(),
        forall|j: int| 0 <= j < s.records().len() ==> key_of(#[trigger] s.records()[j].1) != Some(key),
    ensures
        !s.key_view().contains_key(key),
{
    lemma_key_map(s.records());
    if s.key_view().contains_key(key) {
        let j = s.key_view()[key] as int;
        assert(key_of(s.records()[j].1) == Some(key));
    }
}

/// Where records `i < j` carry the same key and no later record does, the
/// key resolves to record `j`: the later record wins.
pub proof fn lemma_duplicate_key_last_wins(s: &LookupService, key: u64, i: int, j: int)
    requires
        s.wf(),
        0 <= i < j < s.records().len(),
        key_of(s.records()[i].1) == Some(key),
        key_of(s.records()[j].1) == Some(key),
        forall|l: int| j < l < s.records().len() ==> key_of(#[trigger] s.records()[l].1) != Some(key),
    ensures
        s.key_view().contains_key(key),
        s.key_view()[key] == j,
{
    lemma_key_map(s.records());
    let m = s.key_view()[key] as int;
    assert(key_of(s.records()[m].1) == Some(key));
    if m < j {
        assert(key_of(s.records()[j].1) != Some(key));
    }
}

/// Two services built from the same source hold the same key index and the
/// same offset index.
pub proof fn lemma_build_deterministic(a: &LookupService, b: &LookupService)
    requires
        a.wf(),
        b.wf(),
        a.source() == b.source(),
        a.header() == b.header(),
    ensures
        a.key_view() == b.key_view(),
        a.offsets() == b.offsets(),
{
}

} // verus!
