use ngx_cache::get_cached_files_info;
use ngx_cache::order::sort_records;
use ngx_cache::parse_file;
use ngx_cache::structures::NginxCacheError;
use ngx_cache::structures::NgxHttpFileCacheHeader;
use ngx_cache::traits::ByteArrayToInt;
use ngx_cache::NgxCacheData;
use ngx_cache::NgxFilter;

/// Builds one well-formed cache file: magic, the fixed fields, a zero-length
/// etag and the length byte after it, the key line ending in a line feed just
/// before the header block, a small header block and a body.
fn build_file(key_line: &[u8], cached: u32, expire: u32, modified: u32, crc: u32) -> Vec<u8> {
    let mut f = vec![0u8; 60];
    f[0] = 5;
    f[8..12].copy_from_slice(&expire.to_le_bytes());
    f[32..36].copy_from_slice(&modified.to_le_bytes());
    f[40..44].copy_from_slice(&cached.to_le_bytes());
    f[48..52].copy_from_slice(&crc.to_le_bytes());
    f.push(0x0a);
    f.extend_from_slice(key_line);
    f.push(0x0a);
    let header_start = f.len() as u16;
    f[54..56].copy_from_slice(&header_start.to_le_bytes());
    f.extend_from_slice(b"X-Header: v\n");
    let body_start = f.len() as u16;
    f[56..58].copy_from_slice(&body_start.to_le_bytes());
    f.extend_from_slice(b"BODY");
    f
}

fn rec(file: &str, cached: i64, expire: i64, modified: i64, key: &str) -> NgxCacheData {
    NgxCacheData {
        file: file.to_string(),
        cached_date: cached,
        expire_date: expire,
        last_modified_date: modified,
        crc32: 0,
        key: key.to_string(),
    }
}

fn files(recs: &[NgxCacheData]) -> Vec<String> {
    recs.iter().map(|r| r.file.clone()).collect()
}

#[test]
fn decode_width8_ignores_low_half() {
    let b: [u8; 8] = [0xFF, 0xFF, 0xFF, 0xFF, 0x01, 0x00, 0x00, 0x00];
    assert_eq!(b.as_i64(), 1);
    assert_eq!(b.as_u64(), 1);
    assert_eq!(b.as_usize(), 1);
}

#[test]
fn decode_width8_value() {
    let b: [u8; 8] = [9, 9, 9, 9, 0x78, 0x56, 0x34, 0x12];
    assert_eq!(b.as_u64(), 0x12345678);
    assert_eq!(b.as_i64(), 0x12345678);
}

#[test]
fn decode_width4() {
    let b: [u8; 4] = [0x01, 0x02, 0x00, 0x00];
    assert_eq!(b.as_u64(), 0x201);
    assert_eq!(b.as_i64(), 0x201);
    assert_eq!(b.as_usize(), 0x201);
    let m: [u8; 4] = [0xFF, 0xFF, 0xFF, 0xFF];
    assert_eq!(m.as_u64(), 0xFFFFFFFF);
}

#[test]
fn decode_width2() {
    let b: [u8; 2] = [0x34, 0x12];
    assert_eq!(b.as_u64(), 0x1234);
    assert_eq!(b.as_i64(), 0x1234);
    assert_eq!(b.as_usize(), 0x1234);
}

#[test]
fn decode_width1() {
    let b: [u8; 1] = [0xAB];
    assert_eq!(b.as_u64(), 0xAB);
    assert_eq!(b.as_i64(), 0xAB);
    assert_eq!(b.as_usize(), 0xAB);
}

#[test]
fn invalid_magic_is_format_error() {
    let mut f = build_file(b"KEY: /a", 1, 2, 3, 4);
    f[0] = 4;
    let r = parse_file("f".to_string(), &f);
    match r {
        Err(NginxCacheError::NginxCache(_)) => {}
        _ => panic!("expected a format error"),
    }
    let e = r.unwrap_err();
    assert_eq!(e.message(), "Invalid file format");
}

#[test]
fn invalid_magic_contributes_no_record() {
    let mut f = build_file(b"KEY: /a", 1, 2, 3, 4);
    f[3] = 1;
    let filter = NgxFilter { order_by: "none".to_string(), order: 0 };
    let (recs, diags) = get_cached_files_info(vec![("bad".to_string(), f)], filter);
    assert_eq!(recs.len(), 0);
    assert_eq!(diags.len(), 1);
    assert_eq!(diags[0].file, "bad");
}

#[test]
fn short_file_is_io_error() {
    let f = vec![5u8, 0, 0, 0];
    let r = parse_file("short".to_string(), &f);
    match r {
        Err(NginxCacheError::Io) => {}
        _ => panic!("expected a read error"),
    }
    let e = parse_file("short".to_string(), &f).unwrap_err();
    assert_eq!(e.message(), "Undefined IO error message");
}

#[test]
fn empty_file_is_io_error() {
    let f: Vec<u8> = Vec::new();
    assert!(matches!(parse_file("e".to_string(), &f), Err(NginxCacheError::Io)));
}

#[test]
fn minimal_file_decodes_key() {
    let f = build_file(b"KEY: /index.html", 100, 300, 200, 7);
    let r = parse_file("min".to_string(), &f).unwrap();
    assert_eq!(r.key, "/index.html");
    assert_eq!(r.file, "min");
    assert_eq!(r.cached_date, 100);
    assert_eq!(r.expire_date, 300);
    assert_eq!(r.last_modified_date, 200);
    assert_eq!(r.crc32, 7);
}

#[test]
fn key_without_prefix_is_whole_line() {
    let f = build_file(b"GET /nothing", 1, 2, 3, 4);
    let r = parse_file("p".to_string(), &f).unwrap();
    assert_eq!(r.key, "GET /nothing");
}

#[test]
fn key_with_invalid_utf8_is_empty() {
    let f = build_file(&[0x4B, 0x45, 0x59, 0x3A, 0x20, 0xFF, 0xFE], 1, 2, 3, 4);
    let r = parse_file("u".to_string(), &f).unwrap();
    assert_eq!(r.key, "");
}

#[test]
fn header_fields_and_vary_quirk() {
    let mut f = vec![0u8; 58];
    f[0] = 5;
    f.push(2); // etag length
    f.extend_from_slice(b"ab"); // etag bytes
    f.push(9); // the length byte after the etag
    let header_start = f.len() as u16;
    f[54..56].copy_from_slice(&header_start.to_le_bytes());
    f.extend_from_slice(b"HDR");
    let body_start = f.len() as u16;
    f[56..58].copy_from_slice(&body_start.to_le_bytes());
    f.extend_from_slice(b"BODY");
    let h = NgxHttpFileCacheHeader::to_object(&f).unwrap();
    assert_eq!(h.version, [5, 0, 0, 0]);
    assert_eq!(h.etag_data, b"ab".to_vec());
    // the byte after the etag lands in the etag length field, and the vary
    // buffer stays empty
    assert_eq!(h.etag_len, [9]);
    assert_eq!(h.vary_len, [0]);
    assert!(h.vary_data.is_empty());
    assert_eq!(h.header_data, b"HDR".to_vec());
    assert_eq!(h.body_data, b"BODY".to_vec());
}

#[test]
fn body_start_before_header_start_is_io_error() {
    let mut f = vec![0u8; 70];
    f[0] = 5;
    f[54] = 65; // header start
    f[56] = 60; // body start, before the header start
    assert!(matches!(NgxHttpFileCacheHeader::to_object(&f), Err(NginxCacheError::Io)));
}

#[test]
fn truncated_header_range_is_io_error() {
    let mut f = vec![0u8; 70];
    f[0] = 5;
    f[54] = 60;
    f[56] = 200; // body start beyond the end of the file
    assert!(matches!(NgxHttpFileCacheHeader::to_object(&f), Err(NginxCacheError::Io)));
}

#[test]
fn new_header_is_zeroed() {
    let h = NgxHttpFileCacheHeader::new();
    assert_eq!(h.version, [0, 0, 0, 0]);
    assert_eq!(h.valid_sec, [0; 8]);
    assert_eq!(h.header_start, [0, 0]);
    assert_eq!(h.etag_len, [0]);
    assert!(h.etag_data.is_empty());
    assert!(h.header_data.is_empty());
    assert!(h.body_data.is_empty());
    assert_eq!(h.key, "");
}

#[test]
fn from_buffer_fills_and_preserves() {
    let good = build_file(b"KEY: /k", 1, 2, 3, 4);
    let mut h = NgxHttpFileCacheHeader::new();
    assert!(h.from_buffer(&good).is_ok());
    assert_eq!(h.key, "/k");
    let bad = vec![1u8, 2, 3, 4, 5];
    assert!(h.from_buffer(&bad).is_err());
    assert_eq!(h.key, "/k");
}

#[test]
fn sort_by_filename_asc_then_desc_reverses() {
    let filter_asc = NgxFilter { order_by: "filename".to_string(), order: 1 };
    let filter_desc = NgxFilter { order_by: "filename".to_string(), order: -1 };
    let data_a = vec![rec("b", 0, 0, 0, ""), rec("c", 0, 0, 0, ""), rec("a", 0, 0, 0, "")];
    let data_d = vec![rec("b", 0, 0, 0, ""), rec("c", 0, 0, 0, ""), rec("a", 0, 0, 0, "")];
    let asc = sort_records(&filter_asc, data_a);
    let desc = sort_records(&filter_desc, data_d);
    assert_eq!(files(&asc), vec!["a", "b", "c"]);
    let mut reversed = files(&desc);
    reversed.reverse();
    assert_eq!(files(&asc), reversed);
}

#[test]
fn sort_none_keeps_discovery_order() {
    let filter = NgxFilter { order_by: "none".to_string(), order: 1 };
    let data = vec![rec("b", 0, 0, 0, ""), rec("a", 0, 0, 0, ""), rec("c", 0, 0, 0, "")];
    let out = sort_records(&filter, data);
    assert_eq!(files(&out), vec!["b", "a", "c"]);
}

#[test]
fn sort_zero_direction_keeps_discovery_order() {
    let filter = NgxFilter { order_by: "filename".to_string(), order: 0 };
    let data = vec![rec("b", 0, 0, 0, ""), rec("a", 0, 0, 0, "")];
    let out = sort_records(&filter, data);
    assert_eq!(files(&out), vec!["b", "a"]);
}

#[test]
fn sort_unknown_field_keeps_discovery_order() {
    let filter = NgxFilter { order_by: "checksum".to_string(), order: 1 };
    let data = vec![rec("b", 0, 0, 0, ""), rec("a", 0, 0, 0, "")];
    let out = sort_records(&filter, data);
    assert_eq!(files(&out), vec!["b", "a"]);
}

#[test]
fn sort_by_cached_date() {
    let filter = NgxFilter { order_by: "cached".to_string(), order: 1 };
    let data = vec![rec("x", 30, 0, 0, ""), rec("y", 10, 0, 0, ""), rec("z", 20, 0, 0, "")];
    let out = sort_records(&filter, data);
    assert_eq!(files(&out), vec!["y", "z", "x"]);
}

#[test]
fn sort_by_expire_date_descending() {
    let filter = NgxFilter { order_by: "expire".to_string(), order: -1 };
    let data = vec![rec("x", 0, 1, 0, ""), rec("y", 0, 3, 0, ""), rec("z", 0, 2, 0, "")];
    let out = sort_records(&filter, data);
    assert_eq!(files(&out), vec!["y", "z", "x"]);
}

#[test]
fn sort_by_modified_date() {
    let filter = NgxFilter { order_by: "modified".to_string(), order: 1 };
    let data = vec![rec("x", 0, 0, 5, ""), rec("y", 0, 0, 4, "")];
    let out = sort_records(&filter, data);
    assert_eq!(files(&out), vec!["y", "x"]);
}

#[test]
fn sort_by_key() {
    let filter = NgxFilter { order_by: "key".to_string(), order: 1 };
    let data = vec![rec("x", 0, 0, 0, "/b"), rec("y", 0, 0, 0, "/a")];
    let out = sort_records(&filter, data);
    assert_eq!(files(&out), vec!["y", "x"]);
}

#[test]
fn sort_is_stable_on_equal_keys() {
    let filter = NgxFilter { order_by: "cached".to_string(), order: 1 };
    let data = vec![
        rec("first", 10, 0, 0, ""),
        rec("second", 10, 0, 0, ""),
        rec("third", 5, 0, 0, ""),
        rec("fourth", 10, 0, 0, ""),
    ];
    let out = sort_records(&filter, data);
    assert_eq!(files(&out), vec!["third", "first", "second", "fourth"]);
}

#[test]
fn scan_mixed_returns_one_record_one_diagnostic() {
    let good = build_file(b"KEY: /ok", 1, 2, 3, 4);
    let mut corrupt = build_file(b"KEY: /bad", 1, 2, 3, 4);
    corrupt[1] = 7;
    let filter = NgxFilter { order_by: "none".to_string(), order: 0 };
    let (recs, diags) = get_cached_files_info(
        vec![("good".to_string(), good), ("corrupt".to_string(), corrupt)],
        filter,
    );
    assert_eq!(recs.len(), 1);
    assert_eq!(recs[0].file, "good");
    assert_eq!(recs[0].key, "/ok");
    assert_eq!(diags.len(), 1);
    assert_eq!(diags[0].file, "corrupt");
    assert_eq!(diags[0].error.message(), "Invalid file format");
}

#[test]
fn scan_sorts_records_by_filename() {
    let f1 = build_file(b"KEY: /1", 1, 2, 3, 4);
    let f2 = build_file(b"KEY: /2", 1, 2, 3, 4);
    let filter = NgxFilter { order_by: "filename".to_string(), order: 1 };
    let (recs, diags) =
        get_cached_files_info(vec![("zz".to_string(), f1), ("aa".to_string(), f2)], filter);
    assert_eq!(diags.len(), 0);
    assert_eq!(files(&recs), vec!["aa", "zz"]);
}

#[test]
fn scan_without_sort_keeps_discovery_order() {
    let f1 = build_file(b"KEY: /1", 1, 2, 3, 4);
    let f2 = build_file(b"KEY: /2", 1, 2, 3, 4);
    let filter = NgxFilter { order_by: "none".to_string(), order: 1 };
    let (recs, _) =
        get_cached_files_info(vec![("zz".to_string(), f1), ("aa".to_string(), f2)], filter);
    assert_eq!(files(&recs), vec!["zz", "aa"]);
}

#[test]
fn key_prefix_stripped_once_only() {
    let f = build_file(b"KEY: KEY: /x", 1, 2, 3, 4);
    let r = parse_file("twice".to_string(), &f).unwrap();
    assert_eq!(r.key, "KEY: /x");
}

#[test]
fn key_prefix_in_the_middle_is_kept() {
    let f = build_file(b"GET KEY: /x", 1, 2, 3, 4);
    let r = parse_file("mid".to_string(), &f).unwrap();
    assert_eq!(r.key, "GET KEY: /x");
}
