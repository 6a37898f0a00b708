//! Inspector for the on-disk cache files a reverse proxy's file-based HTTP
//! cache writes: a decoder for their fixed-and-variable-length binary header,
//! a per-file parser that turns one file's bytes into a metadata record, and a
//! sort pass over the collected records.
//!
//! Reading directories and files, command-line handling and printing are left
//! to the caller: every function here works on plain values.
use vstd::prelude::*;

pub mod order;
pub mod structures;
pub mod traits;

use crate::order::models;
use crate::order::sort_records;
use crate::order::spec_sort;
use crate::order::spec_sorts;
use crate::order::RecordModel;
use crate::structures::spec_header_start;
use crate::structures::spec_invalid_format;
use crate::structures::spec_key;
use crate::structures::spec_parse_err;
use crate::structures::spec_parse_ok;
use crate::structures::NginxCacheError;
use crate::structures::NgxHttpFileCacheHeader;
use crate::traits::le32;
use crate::traits::ByteArrayToInt;

verus! {

/// The metadata of one successfully parsed cache file. Timestamps are seconds
/// since the epoch, as the header's 8-byte fields decode; `key` is the
/// original request's identifier, empty when its bytes do not decode as
/// UTF-8.
#[derive(Debug)]
pub struct NgxCacheData {
    pub file: String,
    pub cached_date: i64,
    pub expire_date: i64,
    pub last_modified_date: i64,
    pub crc32: u64,
    pub key: String,
}

/// How the collected records are ordered: a field name out of `filename`,
/// `cached`, `expire`, `modified` and `key` (anything else selects no field),
/// and a direction, `1` for ascending, `0` for none, any other value for
/// descending.
pub struct NgxFilter {
    pub order_by: String,
    pub order: i32,
}

/// One skipped file of a scan: its path and why its parse failed.
#[derive(Debug)]
pub struct ScanDiagnostic {
    pub file: String,
    pub error: NginxCacheError,
}

impl View for NgxCacheData {
    type V = RecordModel;

    open spec fn view(&self) -> RecordModel {
        RecordModel {
            file: self.file@,
            cached_date: self.cached_date as int,
            expire_date: self.expire_date as int,
            last_modified_date: self.last_modified_date as int,
            crc32: self.crc32 as int,
            key: self.key@,
        }
    }
}

/// The record a byte stream decodes to: the timestamps and the checksum come
/// from the second half of their 8-byte fields, and the key from the raw
/// pre-header block.
pub open spec fn spec_record(name: Seq<char>, s: Seq<u8>) -> RecordModel {
    RecordModel {
        file: name,
        cached_date: le32(s[40], s[41], s[42], s[43]),
        expire_date: le32(s[8], s[9], s[10], s[11]),
        last_modified_date: le32(s[32], s[33], s[34], s[35]),
        crc32: le32(s[48], s[49], s[50], s[51]),
        key: spec_key(s.subrange(0, spec_header_start(s))),
    }
}

/// The records of the files that parse, in discovery order.
pub open spec fn spec_results(files: Seq<(String, Vec<u8>)>) -> Seq<RecordModel>
    decreases files.len(),
{
    if files.len() == 0 {
        Seq::empty()
    } else {
        let rest = spec_results(files.drop_last());
        let f = files.last();
        if spec_parse_ok(f.1@) {
            rest.push(spec_record(f.0@, f.1@))
        } else {
            rest
        }
    }
}

/// The files that do not parse, in discovery order: each one's name, paired
/// with whether it failed as a foreign format (rather than as a short read).
pub open spec fn spec_failures(files: Seq<(String, Vec<u8>)>) -> Seq<(Seq<char>, bool)>
    decreases files.len(),
{
    if files.len() == 0 {
        Seq::empty()
    } else {
        let rest = spec_failures(files.drop_last());
        let f = files.last();
        if spec_parse_ok(f.1@) {
            rest
        } else {
            rest.push((f.0@, spec_invalid_format(f.1@)))
        }
    }
}

/// A diagnostic reports the failing file under its name, as a format error
/// with the fixed message when the marker mismatched, as a read error
/// otherwise.
pub open spec fn spec_diag_ok(d: ScanDiagnostic, f: (Seq<char>, bool)) -> bool {
    &&& d.file@ == f.0
    &&& if f.1 {
        d.error matches NginxCacheError::NginxCache(e) && e.message@ == "Invalid file format"@
    } else {
        d.error is Io
    }
}

/// Parses one file's bytes into its metadata record. Succeeds exactly when
/// the header parser accepts the bytes, and then pins every field of the
/// record; fails with the same error the header parser reports.
pub fn parse_file(file_name: String, bytes: &Vec<u8>) -> (r: Result<NgxCacheData, NginxCacheError>)
    ensures
        r is Ok <==> spec_parse_ok(bytes@),
        r matches Ok(rec) ==> rec@ == spec_record(file_name@, bytes@),
        r matches Err(e) ==> spec_parse_err(bytes@, e),
{
    match NgxHttpFileCacheHeader::to_object(bytes) {
        Ok(h) => {
            proof {
                assert(h.date@[4] == bytes@[40] && h.date@[5] == bytes@[41] && h.date@[6]
                    == bytes@[42] && h.date@[7] == bytes@[43]);
                assert(h.valid_sec@[4] == bytes@[8] && h.valid_sec@[5] == bytes@[9]
                    && h.valid_sec@[6] == bytes@[10] && h.valid_sec@[7] == bytes@[11]);
                assert(h.last_modified@[4] == bytes@[32] && h.last_modified@[5] == bytes@[33]
                    && h.last_modified@[6] == bytes@[34] && h.last_modified@[7] == bytes@[35]);
                assert(h.crc32@[4] == bytes@[48] && h.crc32@[5] == bytes@[49] && h.crc32@[6]
                    == bytes@[50] && h.crc32@[7] == bytes@[51]);
            }
            let rec = NgxCacheData {
                file: file_name,
                cached_date: h.date.as_i64(),
                expire_date: h.valid_sec.as_i64(),
                last_modified_date: h.last_modified.as_i64(),
                crc32: h.crc32.as_u64(),
                key: h.key,
            };
            assert(rec@ =~= spec_record(file_name@, bytes@));
            Ok(rec)
        },
        Err(e) => Err(e),
    }
}

/// Scans the given files in order: parses each one, collects the records of
/// the files that parse in discovery order, and a diagnostic for each file
/// that does not — one file's failure never stops the scan. The records are
/// then ordered as the filter asks; with no sort field or no direction their
/// discovery order is untouched.
pub fn get_cached_files_info(files: Vec<(String, Vec<u8>)>, filter: NgxFilter) -> (r: (
    Vec<NgxCacheData>,
    Vec<ScanDiagnostic>,
))
    ensures
        spec_sorts(filter) ==> models(r.0@) == spec_sort(
            filter.order_by@,
            filter.order == 1,
            spec_results(files@),
        ),
        !spec_sorts(filter) ==> models(r.0@) == spec_results(files@),
        r.1@.len() == spec_failures(files@).len(),
        forall|i: int| 0 <= i < r.1@.len() ==> spec_diag_ok(r.1@[i], spec_failures(files@)[i]),
{
    let ghost orig = files@;
    let mut rest = files;
    let mut recs: Vec<NgxCacheData> = Vec::new();
    let mut diags: Vec<ScanDiagnostic> = Vec::new();
    proof {
        assert(orig.skip(0) =~= orig);
        assert(orig.take(0) =~= Seq::<(String, Vec<u8>)>::empty());
        assert(models(recs@) =~= spec_results(orig.take(0)));
    }
    while rest.len() > 0
        invariant
            rest.len() <= orig.len(),
            rest@ == orig.skip(orig.len() - rest.len()),
            models(recs@) == spec_results(orig.take(orig.len() - rest.len())),
            diags@.len() == spec_failures(orig.take(orig.len() - rest.len())).len(),
            forall|i: int|
                0 <= i < diags@.len() ==> spec_diag_ok(
                    diags@[i],
                    spec_failures(orig.take(orig.len() - rest.len()))[i],
                ),
        decreases rest.len(),
    {
        let ghost k = orig.len() - rest.len();
        proof {
            assert(rest@[0] == orig[k]);
            assert(orig.take(k + 1).drop_last() =~= orig.take(k));
            assert(orig.take(k + 1).last() == orig[k]);
        }
        let entry = rest.remove(0);
        proof {
            assert(rest@ =~= orig.skip(k + 1));
        }
        let (name, bytes) = entry;
        let parsed = parse_file(name.clone(), &bytes);
        match parsed {
            Ok(rec) => {
                recs.push(rec);
                proof {
                    assert(models(recs@) =~= spec_results(orig.take(k + 1)));
                    assert(spec_failures(orig.take(k + 1)) == spec_failures(orig.take(k)));
                }
            },
            Err(e) => {
                diags.push(ScanDiagnostic { file: name, error: e });
                proof {
                    assert(spec_results(orig.take(k + 1)) == spec_results(orig.take(k)));
                    assert(spec_failures(orig.take(k + 1)) =~= spec_failures(orig.take(k)).push(
                        (orig[k].0@, spec_invalid_format(orig[k].1@)),
                    ));
                }
            },
        }
    }
    proof {
        assert(orig.take(orig.len() as int) =~= orig);
    }
    let sorted = sort_records(&filter, recs);
    (sorted, diags)
}

/// A file whose first four bytes are not the recognized magic contributes no
/// record to a scan: the results are exactly those of the remaining files.
pub proof fn lemma_invalid_format_excluded(files: Seq<(String, Vec<u8>)>, i: int)
    requires
        0 <= i < files.len(),
        spec_invalid_format(files[i].1@),
    ensures
        spec_results(files) == spec_results(files.remove(i)),
    decreases files.len(),
{
    assert(!spec_parse_ok(files[i].1@));
    if i == files.len() - 1 {
        assert(files.remove(i) =~= files.drop_last());
    } else {
        lemma_invalid_format_excluded(files.drop_last(), i);
        assert(files.remove(i).drop_last() =~= files.drop_last().remove(i));
        assert(files.remove(i).last() == files.last());
        assert(files.remove(i).len() == files.len() - 1 > 0);
    }
}

} // verus!

