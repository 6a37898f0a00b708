//! The cache file header: its byte layout, the parser that decodes one file's
//! bytes into a header structure, and the extraction of the cache key from the
//! raw pre-header block.
use vstd::prelude::*;
use vstd::utf8::decode_utf8;
use vstd::utf8::valid_utf8;

use crate::traits::le16;
use crate::traits::ByteArrayToInt;

verus! {

/// Marker for the error kind of a file whose version marker is not the one
/// this reader accepts.
#[derive(Debug)]
pub struct NgxInvalidFileType;

/// A format-mismatch error: the file is not this cache format, or an
/// incompatible version of it.
#[derive(Debug)]
pub struct Error {
    pub kind: NgxInvalidFileType,
    pub message: String,
}

/// What can go wrong while decoding one cache file's bytes: a foreign or
/// incompatible format, or a byte stream too short for the layout it
/// announces (the equivalent of a failed read).
#[derive(Debug)]
pub enum NginxCacheError {
    NginxCache(Error),
    Io,
}

impl NginxCacheError {
    /// A human-readable description of the error.
    pub fn message(&self) -> (r: String)
        ensures
            self matches NginxCacheError::NginxCache(e) ==> r@ == e.message@,
            self is Io ==> r@ == "Undefined IO error message"@,
    {
        match self {
            NginxCacheError::NginxCache(e) => e.message.clone(),
            NginxCacheError::Io => "Undefined IO error message".to_owned(),
        }
    }
}

/// The 4-byte version marker this reader accepts; any other marker is
/// rejected as a foreign file.
pub open spec fn spec_magic() -> Seq<u8> {
    seq![5u8, 0u8, 0u8, 0u8]
}

/// The absolute file offset where the textual header block begins, read from
/// bytes 54..56 of the stream.
pub open spec fn spec_header_start(s: Seq<u8>) -> int {
    le16(s[54], s[55])
}

/// The absolute file offset where the body block begins, read from bytes
/// 56..58 of the stream.
pub open spec fn spec_body_start(s: Seq<u8>) -> int {
    le16(s[56], s[57])
}

/// The etag length byte at offset 58.
pub open spec fn spec_etag_len(s: Seq<u8>) -> int {
    s[58] as int
}

/// A byte stream the parser rejects as a foreign format: long enough for the
/// version marker, but the marker differs from the accepted one.
pub open spec fn spec_invalid_format(s: Seq<u8>) -> bool {
    s.len() >= 4 && s.subrange(0, 4) != spec_magic()
}

/// A byte stream the parser decodes in full: the right version marker, all
/// fixed fields, the etag bytes and the length byte after them present, and a
/// header byte range that starts no later than it ends and lies within the
/// stream.
pub open spec fn spec_parse_ok(s: Seq<u8>) -> bool {
    &&& s.len() >= 4
    &&& s.subrange(0, 4) == spec_magic()
    &&& s.len() >= 60 + spec_etag_len(s)
    &&& spec_header_start(s) <= spec_body_start(s)
    &&& spec_body_start(s) <= s.len()
}

/// What error a rejected byte stream yields: a marker mismatch is reported as
/// a format error with this fixed message; every other failure is a short
/// read.
pub open spec fn spec_parse_err(s: Seq<u8>, e: NginxCacheError) -> bool {
    if spec_invalid_format(s) {
        &&& e matches NginxCacheError::NginxCache(err)
        &&& err.message@ == "Invalid file format"@
    } else {
        e is Io
    }
}

/// The longest suffix of `s` that contains no line-feed byte: what a backward
/// scan accumulates before it meets a line feed or the start of `s`.
pub open spec fn spec_last_line(s: Seq<u8>) -> Seq<u8>
    decreases s.len(),
{
    if s.len() == 0 {
        Seq::empty()
    } else if s.last() == 0x0au8 {
        Seq::empty()
    } else {
        spec_last_line(s.drop_last()).push(s.last())
    }
}

/// The byte image of the literal `KEY: `.
pub open spec fn spec_key_prefix() -> Seq<u8> {
    seq![0x4bu8, 0x45u8, 0x59u8, 0x3au8, 0x20u8]
}

/// The key bytes with a leading `KEY: ` removed when it is present; the bytes
/// unchanged otherwise.
pub open spec fn spec_strip_prefix(s: Seq<u8>) -> Seq<u8> {
    if s.len() >= 5 && s.subrange(0, 5) == spec_key_prefix() {
        s.skip(5)
    } else {
        s
    }
}

/// The key bytes of a raw pre-header block: the block's very last byte is a
/// known trailing byte of the format and is skipped unconditionally, then the
/// last line-feed-free suffix of the rest is taken.
pub open spec fn spec_key_bytes(block: Seq<u8>) -> Seq<u8> {
    if block.len() == 0 {
        Seq::empty()
    } else {
        spec_last_line(block.drop_last())
    }
}

/// The cache key a raw pre-header block carries: its key bytes, the `KEY: `
/// prefix stripped when present, decoded as UTF-8. When the bytes are not
/// valid UTF-8 the key degrades to the empty string; that is not a parse
/// error.
pub open spec fn spec_key(block: Seq<u8>) -> Seq<char> {
    let kb = spec_strip_prefix(spec_key_bytes(block));
    if valid_utf8(kb) {
        decode_utf8(kb)
    } else {
        Seq::empty()
    }
}

/// A pre-header block that ends with a line feed, then `KEY: `, a
/// line-feed-free line, and the format's one trailing byte, yields exactly
/// that line as the key.
pub proof fn lemma_key_line(head: Seq<u8>, line: Seq<u8>, trailing: u8)
    requires
        forall|j: int| 0 <= j < line.len() ==> line[j] != 0x0au8,
        valid_utf8(line),
    ensures
        spec_key(head.push(0x0au8) + spec_key_prefix() + line + seq![trailing]) == decode_utf8(
            line,
        ),
{
    let block = head.push(0x0au8) + spec_key_prefix() + line + seq![trailing];
    let t = block.drop_last();
    assert(t =~= head.push(0x0au8) + spec_key_prefix() + line);
    let cut = head.len() + 1;
    assert forall|j: int| cut <= j < t.len() implies t[j] != 0x0au8 by {
        if j < cut + 5 {
            assert(t[j] == spec_key_prefix()[j - cut]);
        } else {
            assert(t[j] == line[j - cut - 5]);
        }
    }
    assert(t[cut - 1] == 0x0au8);
    lemma_last_line_at(t, cut as int);
    assert(spec_key_bytes(block) == t.subrange(cut as int, t.len() as int));
    assert(t.subrange(cut as int, t.len() as int) =~= spec_key_prefix() + line);
    assert((spec_key_prefix() + line).subrange(0, 5) =~= spec_key_prefix());
    assert((spec_key_prefix() + line).skip(5) =~= line);
}

/// A pre-header block whose last line does not begin with `KEY: ` yields that
/// full line as the key: the prefix is stripped only when present.
pub proof fn lemma_key_line_unprefixed(head: Seq<u8>, line: Seq<u8>, trailing: u8)
    requires
        forall|j: int| 0 <= j < line.len() ==> line[j] != 0x0au8,
        !(line.len() >= 5 && line.subrange(0, 5) == spec_key_prefix()),
        valid_utf8(line),
    ensures
        spec_key(head.push(0x0au8) + line + seq![trailing]) == decode_utf8(line),
{
    let block = head.push(0x0au8) + line + seq![trailing];
    let t = block.drop_last();
    assert(t =~= head.push(0x0au8) + line);
    let cut = head.len() + 1;
    assert forall|j: int| cut <= j < t.len() implies t[j] != 0x0au8 by {
        assert(t[j] == line[j - cut]);
    }
    assert(t[cut - 1] == 0x0au8);
    lemma_last_line_at(t, cut as int);
    assert(spec_key_bytes(block) == t.subrange(cut as int, t.len() as int));
    assert(t.subrange(cut as int, t.len() as int) =~= line);
}

/// The header structure of one cache file, populated field by field from the
/// file's byte stream.
pub struct NgxHttpFileCacheHeader {
    pub version: [u8; 4],
    pub valid_sec: [u8; 8],
    pub updating_sec: [u8; 8],
    pub error_sec: [u8; 8],
    pub last_modified: [u8; 8],
    pub date: [u8; 8],
    pub crc32: [u8; 8],
    pub valid_msec: [u8; 2],
    pub header_start: [u8; 2],
    pub body_start: [u8; 2],
    pub etag_len: [u8; 1],
    pub etag_data: Vec<u8>,
    pub vary_len: [u8; 1],
    pub vary_data: Vec<u8>,
    pub variant_data: Vec<u8>,
    pub header_data: Vec<u8>,
    pub body_data: Vec<u8>,
    pub key: String,
}

/// How a fully decoded header relates to the byte stream it was read from.
///
/// One quirk of the format's tooling is kept on purpose, for byte-for-byte
/// compatible behaviour: the length byte that follows the etag bytes is
/// stored over the etag length, while the vary buffer is sized from the vary
/// length field, which is never written and stays zero. The vary bytes are
/// therefore never consumed and `vary_data` is always empty.
pub open spec fn spec_header_fields(h: NgxHttpFileCacheHeader, s: Seq<u8>) -> bool {
    let hs = spec_header_start(s);
    let bs = spec_body_start(s);
    let el = spec_etag_len(s);
    &&& h.version@ == s.subrange(0, 4)
    &&& h.valid_sec@ == s.subrange(4, 12)
    &&& h.updating_sec@ == s.subrange(12, 20)
    &&& h.error_sec@ == s.subrange(20, 28)
    &&& h.last_modified@ == s.subrange(28, 36)
    &&& h.date@ == s.subrange(36, 44)
    &&& h.crc32@ == s.subrange(44, 52)
    &&& h.valid_msec@ == s.subrange(52, 54)
    &&& h.header_start@ == s.subrange(54, 56)
    &&& h.body_start@ == s.subrange(56, 58)
    &&& h.etag_len@ == seq![s[59 + el]]
    &&& h.etag_data@ == s.subrange(59, 59 + el)
    &&& h.vary_len@ == seq![0u8]
    &&& h.vary_data@ == Seq::<u8>::empty()
    &&& h.variant_data@ == Seq::<u8>::empty()
    &&& h.header_data@ == s.subrange(hs, bs)
    &&& h.body_data@ == s.subrange(bs, s.len() as int)
    &&& h.key@ == spec_key(s.subrange(0, hs))
}

/// Copies `bytes[from..to]` into a fresh vector.
fn subvec(bytes: &Vec<u8>, from: usize, to: usize) -> (r: Vec<u8>)
    requires
        from <= to <= bytes.len(),
    ensures
        r@ == bytes@.subrange(from as int, to as int),
{
    let mut r: Vec<u8> = Vec::new();
    let mut i: usize = from;
    while i < to
        invariant
            from <= i <= to <= bytes.len(),
            r@ == bytes@.subrange(from as int, i as int),
        decreases to - i,
    {
        r.push(bytes[i]);
        i = i + 1;
        proof {
            assert(r@ =~= bytes@.subrange(from as int, i as int));
        }
    }
    r
}

/// Reads the 8-byte field at `off`.
fn read8(bytes: &Vec<u8>, off: usize) -> (r: [u8; 8])
    requires
        off + 8 <= bytes.len(),
    ensures
        r@ == bytes@.subrange(off as int, off + 8),
{
    let r =
        [
            bytes[off],
            bytes[off + 1],
            bytes[off + 2],
            bytes[off + 3],
            bytes[off + 4],
            bytes[off + 5],
            bytes[off + 6],
            bytes[off + 7],
        ];
    proof {
        assert(r@ =~= bytes@.subrange(off as int, off + 8));
    }
    r
}

/// Reads the 2-byte field at `off`.
fn read2(bytes: &Vec<u8>, off: usize) -> (r: [u8; 2])
    requires
        off + 2 <= bytes.len(),
    ensures
        r@ == bytes@.subrange(off as int, off + 2),
{
    let r = [bytes[off], bytes[off + 1]];
    proof {
        assert(r@ =~= bytes@.subrange(off as int, off + 2));
    }
    r
}

/// Relies on String::from_utf8: it succeeds exactly when the bytes are valid
/// UTF-8, and then returns the string of the characters those bytes encode.
#[verifier::external_body]
fn bytes_to_string(v: Vec<u8>) -> (r: Option<String>)
    ensures
        r is Some <==> valid_utf8(v@),
        r matches Some(s) ==> s@ == decode_utf8(v@),
{
    match String::from_utf8(v) {
        Ok(s) => Some(s),
        Err(_) => None,
    }
}

/// The suffix of `t` that follows its last line-feed byte is exactly
/// `t[cut..]`, provided no byte at or after `cut` is a line feed and the byte
/// just before `cut`, if any, is one.
proof fn lemma_last_line_at(t: Seq<u8>, cut: int)
    requires
        0 <= cut <= t.len(),
        forall|j: int| cut <= j < t.len() ==> t[j] != 0x0au8,
        cut > 0 ==> t[cut - 1] == 0x0au8,
    ensures
        spec_last_line(t) == t.subrange(cut, t.len() as int),
    decreases t.len(),
{
    if t.len() == cut {
        if cut == 0 {
            assert(spec_last_line(t) =~= t.subrange(0, 0));
        } else {
            assert(t.last() == 0x0au8);
            assert(spec_last_line(t) =~= t.subrange(cut, t.len() as int));
        }
    } else {
        assert(t.last() != 0x0au8);
        lemma_last_line_at(t.drop_last(), cut);
        assert(spec_last_line(t) == t.drop_last().subrange(
            cut,
            t.len() - 1,
        ).push(t.last()));
        assert(t.drop_last().subrange(cut, t.len() - 1).push(t.last()) =~= t.subrange(
            cut,
            t.len() as int,
        ));
    }
}

/// Recovers the cache key from the raw pre-header block: scans the block
/// backward, skipping its very last byte, up to a line feed or the block's
/// start; strips a leading `KEY: ` when present; and decodes the rest as
/// UTF-8, degrading to the empty string when that fails.
pub fn extract_key(block: &Vec<u8>) -> (r: String)
    ensures
        r@ == spec_key(block@),
{
    let mut kb: Vec<u8> = Vec::new();
    if block.len() > 0 {
        let end = block.len() - 1;
        let mut cut = end;
        while cut > 0 && block[cut - 1] != 0x0au8
            invariant
                0 <= cut <= end < block.len(),
                forall|j: int| cut <= j < end ==> block@[j] != 0x0au8,
            decreases cut,
        {
            cut = cut - 1;
        }
        kb = subvec(block, cut, end);
        proof {
            lemma_last_line_at(block@.drop_last(), cut as int);
            assert(block@.drop_last().subrange(cut as int, end as int) =~= block@.subrange(
                cut as int,
                end as int,
            ));
        }
    }
    assert(kb@ == spec_key_bytes(block@));
    let stripped: Vec<u8> = if kb.len() >= 5 && kb[0] == 0x4bu8 && kb[1] == 0x45u8 && kb[2]
        == 0x59u8 && kb[3] == 0x3au8 && kb[4] == 0x20u8 {
        proof {
            assert(kb@.subrange(0, 5) =~= spec_key_prefix());
        }
        let s = subvec(&kb, 5, kb.len());
        proof {
            assert(s@ =~= kb@.skip(5));
        }
        s
    } else {
        proof {
            if kb@.len() >= 5 && kb@.subrange(0, 5) == spec_key_prefix() {
                assert(kb@[0] == 0x4bu8 && kb@[1] == 0x45u8 && kb@[2] == 0x59u8 && kb@[3] == 0x3au8
                    && kb@[4] == 0x20u8);
            }
        }
        kb
    };
    assert(stripped@ == spec_strip_prefix(spec_key_bytes(block@)));
    match bytes_to_string(stripped) {
        Some(s) => s,
        None => String::new(),
    }
}

impl NgxHttpFileCacheHeader {
    /// A header with every fixed field zeroed, every buffer empty and an
    /// empty key: the scratch value the decoder fills.
    pub fn new() -> (r: Self)
        ensures
            r.version@ == seq![0u8, 0u8, 0u8, 0u8],
            r.valid_sec@ == seq![0u8, 0u8, 0u8, 0u8, 0u8, 0u8, 0u8, 0u8],
            r.updating_sec@ == seq![0u8, 0u8, 0u8, 0u8, 0u8, 0u8, 0u8, 0u8],
            r.error_sec@ == seq![0u8, 0u8, 0u8, 0u8, 0u8, 0u8, 0u8, 0u8],
            r.last_modified@ == seq![0u8, 0u8, 0u8, 0u8, 0u8, 0u8, 0u8, 0u8],
            r.date@ == seq![0u8, 0u8, 0u8, 0u8, 0u8, 0u8, 0u8, 0u8],
            r.crc32@ == seq![0u8, 0u8, 0u8, 0u8, 0u8, 0u8, 0u8, 0u8],
            r.valid_msec@ == seq![0u8, 0u8],
            r.header_start@ == seq![0u8, 0u8],
            r.body_start@ == seq![0u8, 0u8],
            r.etag_len@ == seq![0u8],
            r.etag_data@ == Seq::<u8>::empty(),
            r.vary_len@ == seq![0u8],
            r.vary_data@ == Seq::<u8>::empty(),
            r.variant_data@ == Seq::<u8>::empty(),
            r.header_data@ == Seq::<u8>::empty(),
            r.body_data@ == Seq::<u8>::empty(),
            r.key@ == Seq::<char>::empty(),
    {
        let r = Self {
            version: [0u8, 0u8, 0u8, 0u8],
            valid_sec: [0u8, 0u8, 0u8, 0u8, 0u8, 0u8, 0u8, 0u8],
            updating_sec: [0u8, 0u8, 0u8, 0u8, 0u8, 0u8, 0u8, 0u8],
            error_sec: [0u8, 0u8, 0u8, 0u8, 0u8, 0u8, 0u8, 0u8],
            last_modified: [0u8, 0u8, 0u8, 0u8, 0u8, 0u8, 0u8, 0u8],
            date: [0u8, 0u8, 0u8, 0u8, 0u8, 0u8, 0u8, 0u8],
            crc32: [0u8, 0u8, 0u8, 0u8, 0u8, 0u8, 0u8, 0u8],
            valid_msec: [0u8, 0u8],
            header_start: [0u8, 0u8],
            body_start: [0u8, 0u8],
            etag_len: [0u8],
            etag_data: Vec::new(),
            vary_len: [0u8],
            vary_data: Vec::new(),
            variant_data: Vec::new(),
            header_data: Vec::new(),
            body_data: Vec::new(),
            key: String::new(),
        };
        proof {
            assert(r.version@ =~= seq![0u8, 0u8, 0u8, 0u8]);
            assert(r.valid_sec@ =~= seq![0u8, 0u8, 0u8, 0u8, 0u8, 0u8, 0u8, 0u8]);
            assert(r.updating_sec@ =~= seq![0u8, 0u8, 0u8, 0u8, 0u8, 0u8, 0u8, 0u8]);
            assert(r.error_sec@ =~= seq![0u8, 0u8, 0u8, 0u8, 0u8, 0u8, 0u8, 0u8]);
            assert(r.last_modified@ =~= seq![0u8, 0u8, 0u8, 0u8, 0u8, 0u8, 0u8, 0u8]);
            assert(r.date@ =~= seq![0u8, 0u8, 0u8, 0u8, 0u8, 0u8, 0u8, 0u8]);
            assert(r.crc32@ =~= seq![0u8, 0u8, 0u8, 0u8, 0u8, 0u8, 0u8, 0u8]);
            assert(r.valid_msec@ =~= seq![0u8, 0u8]);
            assert(r.header_start@ =~= seq![0u8, 0u8]);
            assert(r.body_start@ =~= seq![0u8, 0u8]);
            assert(r.etag_len@ =~= seq![0u8]);
            assert(r.vary_len@ =~= seq![0u8]);
        }
        r
    }

    /// Decodes one cache file's bytes into a header, in the layout's strict
    /// sequential order: the version marker first — a mismatch rejects the
    /// file as a foreign format before anything else is read — then the fixed
    /// fields, the etag, the header byte range and the body, and finally the
    /// key extracted from the raw pre-header block.
    pub fn to_object(bytes: &Vec<u8>) -> (r: Result<NgxHttpFileCacheHeader, NginxCacheError>)
        ensures
            r is Ok <==> spec_parse_ok(bytes@),
            r matches Ok(h) ==> spec_header_fields(h, bytes@),
            r matches Err(e) ==> spec_parse_err(bytes@, e),
    {
        let mut data = NgxHttpFileCacheHeader::new();
        let n = bytes.len();
        if n < 4 {
            return Err(NginxCacheError::Io);
        }
        data.version = [bytes[0], bytes[1], bytes[2], bytes[3]];
        proof {
            assert(data.version@ =~= bytes@.subrange(0, 4));
        }
        if !(bytes[0] == 5u8 && bytes[1] == 0u8 && bytes[2] == 0u8 && bytes[3] == 0u8) {
            proof {
                assert(bytes@.subrange(0, 4) != spec_magic());
            }
            return Err(
                NginxCacheError::NginxCache(
                    Error { kind: NgxInvalidFileType, message: "Invalid file format".to_owned() },
                ),
            );
        }
        proof {
            assert(bytes@.subrange(0, 4) =~= spec_magic());
        }
        if n < 59 {
            return Err(NginxCacheError::Io);
        }
        data.valid_sec = read8(bytes, 4);
        data.updating_sec = read8(bytes, 12);
        data.error_sec = read8(bytes, 20);
        data.last_modified = read8(bytes, 28);
        data.date = read8(bytes, 36);
        data.crc32 = read8(bytes, 44);
        data.valid_msec = read2(bytes, 52);
        data.header_start = read2(bytes, 54);
        data.body_start = read2(bytes, 56);

        let etag_len: usize = bytes[58] as usize;
        if n < 60 + etag_len {
            return Err(NginxCacheError::Io);
        }
        data.etag_data = subvec(bytes, 59, 59 + etag_len);
        // The format's own tooling stores the next length byte over the etag
        // length and sizes the vary buffer from the untouched vary length, so
        // no vary bytes are consumed; kept for compatible behaviour.
        data.etag_len = [bytes[59 + etag_len]];
        proof {
            assert(data.etag_len@ =~= seq![bytes@[59 + spec_etag_len(bytes@)]]);
        }

        let hs = data.header_start.as_usize();
        let bs = data.body_start.as_usize();
        proof {
            assert(bytes@.subrange(54, 56)[0] == bytes@[54]);
            assert(bytes@.subrange(54, 56)[1] == bytes@[55]);
            assert(bytes@.subrange(56, 58)[0] == bytes@[56]);
            assert(bytes@.subrange(56, 58)[1] == bytes@[57]);
            assert(hs == spec_header_start(bytes@));
            assert(bs == spec_body_start(bytes@));
        }
        if bs < hs || bs > n {
            return Err(NginxCacheError::Io);
        }
        data.header_data = subvec(bytes, hs, bs);
        data.body_data = subvec(bytes, bs, n);

        let pre_header = subvec(bytes, 0, hs);
        data.key = extract_key(&pre_header);

        Ok(data)
    }

    /// Decodes `bytes` into `self`, replacing every field on success and
    /// leaving `self` untouched on failure.
    pub fn from_buffer(&mut self, bytes: &Vec<u8>) -> (r: Result<(), NginxCacheError>)
        ensures
            r is Ok <==> spec_parse_ok(bytes@),
            r is Ok ==> spec_header_fields(*final(self), bytes@),
            r matches Err(e) ==> spec_parse_err(bytes@, e) && *final(self) == *old(self),
    {
        match Self::to_object(bytes) {
            Ok(val) => {
                *self = val;
                Ok(())
            },
            Err(err) => Err(err),
        }
    }
}

} // verus!
