use serve_csv::key_index::{build_key_index, parse_key};
use serve_csv::offset_index::build_offset_index;
use serve_csv::recommend::{
    parse_entry, parse_recommendations, recommendations_for, response_status, split_bytes,
    FormatError, Recommendation, STATUS_FOUND, STATUS_NOT_FOUND,
};
use serve_csv::scanner::{parse_record_at, scan_records, skip_header};
use serve_csv::store::{rocket, IndexedStore, LookupService};
use serve_csv::StoreError;

fn bytes(s: &str) -> Vec<u8> {
    s.as_bytes().to_vec()
}

fn fields(v: &[&str]) -> Vec<Vec<u8>> {
    v.iter().map(|f| bytes(f)).collect()
}

const SAMPLE: &str = "1,10:0.5\n2,20:0.9|21:0.3\n";

#[test]
fn record_plain_fields() {
    let data = bytes("7,a,bc\n8,d\n");
    let (rec, next) = parse_record_at(&data, 0).unwrap();
    assert_eq!(rec, fields(&["7", "a", "bc"]));
    assert_eq!(next, 7);
    let (rec, next) = parse_record_at(&data, 7).unwrap();
    assert_eq!(rec, fields(&["8", "d"]));
    assert_eq!(next, 11);
}

#[test]
fn record_without_final_newline_ends_at_input_end() {
    let data = bytes("5,x");
    let (rec, next) = parse_record_at(&data, 0).unwrap();
    assert_eq!(rec, fields(&["5", "x"]));
    assert_eq!(next, 3);
}

#[test]
fn record_ends_at_carriage_return() {
    let data = bytes("1,a\r\n2,b\r3,c\n");
    let (rec, next) = parse_record_at(&data, 0).unwrap();
    assert_eq!(rec, fields(&["1", "a"]));
    assert_eq!(next, 5);
    let (rec, next) = parse_record_at(&data, 5).unwrap();
    assert_eq!(rec, fields(&["2", "b"]));
    assert_eq!(next, 9);
    let recs = scan_records(&data, false).unwrap();
    assert_eq!(recs, vec![fields(&["1", "a"]), fields(&["2", "b"]), fields(&["3", "c"])]);
    let idx = build_offset_index(&data, false).unwrap();
    assert_eq!(idx.total_records(), 3);
    assert_eq!(idx.offset(2), 9);
}

#[test]
fn quoted_carriage_return_is_field_content() {
    let data = bytes("1,\"a\r\nb\"\r\n");
    let recs = scan_records(&data, false).unwrap();
    assert_eq!(recs, vec![fields(&["1", "a\r\nb"])]);
}

#[test]
fn record_quoted_fields() {
    let data = bytes("3,\"a,b\",\"say \"\"hi\"\"\",\"x\ny\"\n4,z\n");
    let (rec, next) = parse_record_at(&data, 0).unwrap();
    assert_eq!(rec, fields(&["3", "a,b", "say \"hi\"", "x\ny"]));
    assert_eq!(&data[next..], b"4,z\n");
}

#[test]
fn record_empty_fields() {
    let data = bytes("9,,\n");
    let (rec, _) = parse_record_at(&data, 0).unwrap();
    assert_eq!(rec, fields(&["9", "", ""]));
}

#[test]
fn record_unclosed_quote_is_malformed() {
    let data = bytes("1,\"abc\n2,d\n");
    assert_eq!(parse_record_at(&data, 0), Err(StoreError::MalformedRecord));
}

#[test]
fn record_text_after_closing_quote_is_malformed() {
    let data = bytes("1,\"ab\"c\n");
    assert_eq!(parse_record_at(&data, 0), Err(StoreError::MalformedRecord));
}

#[test]
fn scan_reads_all_records_in_order() {
    let data = bytes(SAMPLE);
    let recs = scan_records(&data, false).unwrap();
    assert_eq!(recs, vec![fields(&["1", "10:0.5"]), fields(&["2", "20:0.9|21:0.3"])]);
}

#[test]
fn scan_of_empty_input_has_no_records() {
    assert_eq!(scan_records(&Vec::new(), false).unwrap().len(), 0);
}

#[test]
fn scan_skips_header_when_declared() {
    let data = bytes("id,recs\n1,10:0.5\n");
    assert_eq!(skip_header(&data, true), Ok(8));
    assert_eq!(skip_header(&data, false), Ok(0));
    let recs = scan_records(&data, true).unwrap();
    assert_eq!(recs, vec![fields(&["1", "10:0.5"])]);
}

#[test]
fn scan_fails_on_malformed_record() {
    let data = bytes("1,a\n2,\"b\n");
    assert_eq!(scan_records(&data, false), Err(StoreError::MalformedRecord));
}

#[test]
fn key_parses_decimal_digits() {
    assert_eq!(parse_key(&bytes("0")), Some(0));
    assert_eq!(parse_key(&bytes("12345")), Some(12345));
    assert_eq!(parse_key(&bytes("18446744073709551615")), Some(u64::MAX));
    assert_eq!(parse_key(&bytes("+5")), Some(5));
    assert_eq!(parse_key(&bytes("+18446744073709551615")), Some(u64::MAX));
}

#[test]
fn key_rejects_non_numeric_and_overflow() {
    assert_eq!(parse_key(&bytes("")), None);
    assert_eq!(parse_key(&bytes("12a")), None);
    assert_eq!(parse_key(&bytes("-1")), None);
    assert_eq!(parse_key(&bytes("+")), None);
    assert_eq!(parse_key(&bytes("++5")), None);
    assert_eq!(parse_key(&bytes("5+")), None);
    assert_eq!(parse_key(&bytes("18446744073709551616")), None);
}

#[test]
fn offset_index_holds_record_starts_and_end_mark() {
    let data = bytes(SAMPLE);
    let idx = build_offset_index(&data, false).unwrap();
    assert_eq!(idx.total_records(), 2);
    assert_eq!(idx.offset(0), 0);
    assert_eq!(idx.offset(1), 9);
    assert_eq!(idx.offset(2), 2);
    assert_eq!(idx.input_len(), 25);
}

#[test]
fn offset_index_sentinel_is_record_count() {
    let data = bytes("5,x\n7,y\n");
    let idx = build_offset_index(&data, false).unwrap();
    assert_eq!(idx.offset(0), 0);
    assert_eq!(idx.offset(1), 4);
    assert_eq!(idx.offset(2), 2);
    assert_eq!(idx.total_records(), 2);
}

#[test]
fn record_span_covers_one_record() {
    let data = bytes(SAMPLE);
    let idx = build_offset_index(&data, false).unwrap();
    assert_eq!(idx.record_span(0), Ok((0, 9)));
    assert_eq!(idx.record_span(1), Ok((9, 25)));
    assert_eq!(idx.record_span(2), Err(StoreError::OutOfRange));
    let (from, to) = idx.record_span(1).unwrap();
    let chunk = data[from..to].to_vec();
    let (rec, _) = parse_record_at(&chunk, 0).unwrap();
    assert_eq!(rec, fields(&["2", "20:0.9|21:0.3"]));
}

#[test]
fn blank_lines_hold_no_record() {
    let data = bytes("\n1,a\n\n\r\n2,b\n\n");
    let recs = scan_records(&data, false).unwrap();
    assert_eq!(recs, vec![fields(&["1", "a"]), fields(&["2", "b"])]);
    let idx = build_offset_index(&data, false).unwrap();
    assert_eq!(idx.total_records(), 2);
    assert_eq!(idx.offset(0), 1);
    assert_eq!(idx.offset(1), 8);
    assert_eq!(idx.offset(2), 2);
    let keys = build_key_index(&data, false).unwrap();
    assert_eq!(keys.get(2), Some(1));
    let store = IndexedStore::open(data, false).unwrap();
    assert_eq!(store.fetch(1).unwrap(), fields(&["2", "b"]));
}

#[test]
fn header_after_blank_lines() {
    let data = bytes("\nid,v\n3,c\n");
    let recs = scan_records(&data, true).unwrap();
    assert_eq!(recs, vec![fields(&["3", "c"])]);
}

#[test]
fn offset_index_of_empty_input() {
    let idx = build_offset_index(&Vec::new(), false).unwrap();
    assert_eq!(idx.total_records(), 0);
    assert_eq!(idx.offset(0), 0);
    assert_eq!(idx.input_len(), 0);
}

#[test]
fn key_index_maps_keys_to_record_numbers() {
    let data = bytes("30,a\n10,b\n20,c\n");
    let idx = build_key_index(&data, false).unwrap();
    assert_eq!(idx.get(30), Some(0));
    assert_eq!(idx.get(10), Some(1));
    assert_eq!(idx.get(20), Some(2));
    assert_eq!(idx.get(40), None);
}

#[test]
fn key_index_duplicate_key_last_wins() {
    let data = bytes("5,first\n6,other\n5,second\n");
    let idx = build_key_index(&data, false).unwrap();
    assert_eq!(idx.get(5), Some(2));
    let service = LookupService::build(data, false).unwrap();
    assert_eq!(service.find(5), Some(fields(&["5", "second"])));
}

#[test]
fn key_index_accepts_plus_sign() {
    let data = bytes("+5,x\n6,y\n");
    let idx = build_key_index(&data, false).unwrap();
    assert_eq!(idx.get(5), Some(0));
    assert_eq!(idx.get(6), Some(1));
}

#[test]
fn key_index_fails_on_non_numeric_key() {
    let data = bytes("1,a\nx,b\n");
    assert_eq!(build_key_index(&data, false).err(), Some(StoreError::NonNumericKey));
}

#[test]
fn key_index_malformed_record_comes_first() {
    let data = bytes("x,a\n2,\"b\n");
    assert_eq!(build_key_index(&data, false).err(), Some(StoreError::MalformedRecord));
}

#[test]
fn key_index_header_is_not_a_key() {
    let data = bytes("id,recs\n4,a\n");
    assert_eq!(build_key_index(&data, false).err(), Some(StoreError::NonNumericKey));
    let idx = build_key_index(&data, true).unwrap();
    assert_eq!(idx.get(4), Some(0));
}

#[test]
fn fetch_matches_linear_scan() {
    let data = bytes("1,a\n2,\"b,c\"\n3,d,e\n");
    let recs = scan_records(&data, false).unwrap();
    let store = IndexedStore::open(data, false).unwrap();
    assert_eq!(store.total_records(), 3);
    for n in 0..3 {
        assert_eq!(store.fetch(n).unwrap(), recs[n]);
    }
}

#[test]
fn fetch_one_past_end_is_out_of_range() {
    let store = IndexedStore::open(bytes(SAMPLE), false).unwrap();
    assert_eq!(store.fetch(2), Err(StoreError::OutOfRange));
    assert_eq!(store.fetch(usize::MAX), Err(StoreError::OutOfRange));
}

#[test]
fn store_open_fails_on_malformed_input() {
    assert_eq!(IndexedStore::open(bytes("1,\"a\n"), false).err(), Some(StoreError::MalformedRecord));
}

#[test]
fn found_record_carries_its_key() {
    let service = LookupService::build(bytes("11,a\n22,b\n33,c\n"), false).unwrap();
    for key in [11u64, 22, 33] {
        let rec = service.find(key).unwrap();
        assert_eq!(parse_key(&rec[0]), Some(key));
    }
}

#[test]
fn absent_key_is_not_found() {
    let service = LookupService::build(bytes(SAMPLE), false).unwrap();
    assert_eq!(service.find(999), None);
    assert_eq!(service.lookup(999), None);
    assert_eq!(service.lookup(0), None);
}

#[test]
fn lookup_drops_key_column() {
    let service = LookupService::build(bytes(SAMPLE), false).unwrap();
    assert_eq!(service.lookup(2), Some(fields(&["20:0.9|21:0.3"])));
    assert_eq!(service.lookup(1), Some(fields(&["10:0.5"])));
}

#[test]
fn service_build_errors() {
    assert_eq!(LookupService::build(bytes("a,b\n"), false).err(), Some(StoreError::NonNumericKey));
    assert_eq!(LookupService::build(bytes("1,\"b\n"), false).err(), Some(StoreError::MalformedRecord));
}

#[test]
fn rocket_builds_service_without_header() {
    let service = rocket(bytes(SAMPLE)).unwrap();
    assert_eq!(service.store().total_records(), 2);
    assert_eq!(service.key_index().get(1), Some(0));
    assert_eq!(rocket(bytes("id,recs\n1,2:0.1\n")).err(), Some(StoreError::NonNumericKey));
}

#[test]
fn rebuild_gives_identical_indices() {
    let data = bytes("4,a\n2,b\n4,c\n9,\"d\ne\"\n");
    let a = LookupService::build(data.clone(), false).unwrap();
    let b = LookupService::build(data.clone(), false).unwrap();
    let (oa, ob) = (a.store().offset_index(), b.store().offset_index());
    assert_eq!(oa.total_records(), ob.total_records());
    for n in 0..=oa.total_records() {
        assert_eq!(oa.offset(n), ob.offset(n));
    }
    for key in 0..12u64 {
        assert_eq!(a.key_index().get(key), b.key_index().get(key));
    }
    assert_eq!(a.key_index().get(4), Some(2));
}

#[test]
fn split_on_separator() {
    assert_eq!(split_bytes(&bytes("a|bc||d"), b'|'), fields(&["a", "bc", "", "d"]));
    assert_eq!(split_bytes(&bytes(""), b'|'), fields(&[""]));
}

#[test]
fn entry_splits_at_first_colon() {
    let r = parse_entry(&bytes("20:0.9")).unwrap();
    assert_eq!(r, Recommendation { item_id: 20, score: bytes("0.9") });
    let r = parse_entry(&bytes("+20:0.9")).unwrap();
    assert_eq!(r, Recommendation { item_id: 20, score: bytes("0.9") });
    let r = parse_entry(&bytes("7:1:2")).unwrap();
    assert_eq!(r, Recommendation { item_id: 7, score: bytes("1:2") });
}

#[test]
fn entry_errors() {
    assert_eq!(parse_entry(&bytes("20")), Err(FormatError::MissingSeparator));
    assert_eq!(parse_entry(&bytes("")), Err(FormatError::MissingSeparator));
    assert_eq!(parse_entry(&bytes("x:0.9")), Err(FormatError::BadItemId));
    assert_eq!(parse_entry(&bytes(":0.9")), Err(FormatError::BadItemId));
}

#[test]
fn payload_recommendations_in_order() {
    let payload = fields(&["1:0.5|2:0.25", "3:1"]);
    let rs = parse_recommendations(&payload).unwrap();
    let ids: Vec<u64> = rs.iter().map(|r| r.item_id).collect();
    assert_eq!(ids, vec![1, 2, 3]);
    assert_eq!(rs[2].score, bytes("1"));
    assert_eq!(parse_recommendations(&Vec::new()).unwrap().len(), 0);
    assert_eq!(parse_recommendations(&fields(&["1:0.5", "oops"])), Err(FormatError::MissingSeparator));
}

#[test]
fn end_to_end_pipe_separated_recommendations() {
    let service = LookupService::build(bytes(SAMPLE), false).unwrap();
    let rs = recommendations_for(&service, 2).unwrap().unwrap();
    let pairs: Vec<(u64, f64)> = rs
        .iter()
        .map(|r| (r.item_id, std::str::from_utf8(&r.score).unwrap().parse::<f64>().unwrap()))
        .collect();
    assert_eq!(pairs, vec![(20, 0.9), (21, 0.3)]);
}

#[test]
fn response_found_and_not_found() {
    let service = rocket(bytes(SAMPLE)).unwrap();
    let found = recommendations_for(&service, 2).unwrap();
    assert_eq!(response_status(found.is_some()), 200);
    assert_eq!(found.unwrap().len(), 2);
    let missing = recommendations_for(&service, 999).unwrap();
    assert_eq!(response_status(missing.is_some()), 404);
    assert!(missing.is_none());
    assert_eq!((STATUS_FOUND, STATUS_NOT_FOUND), (200, 404));
}

#[test]
fn response_format_error_for_bad_field() {
    let service = rocket(bytes("1,10\n")).unwrap();
    assert_eq!(recommendations_for(&service, 1), Err(FormatError::MissingSeparator));
}
