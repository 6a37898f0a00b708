//! Ordering of decoded records: lexicographic comparison of strings, the
//! stable insertion sort the engine uses, and the laws that hold of it.
use vstd::prelude::*;
use vstd::string::StrSliceExecFns;

use crate::NgxCacheData;
use crate::NgxFilter;

verus! {

/// Lexicographic "less than or equal" on character sequences, by code point.
pub open spec fn chars_le(a: Seq<char>, b: Seq<char>) -> bool
    decreases a.len(),
{
    if a.len() == 0 {
        true
    } else if b.len() == 0 {
        false
    } else if (a[0] as u32) < (b[0] as u32) {
        true
    } else if (a[0] as u32) > (b[0] as u32) {
        false
    } else {
        chars_le(a.skip(1), b.skip(1))
    }
}

/// Lexicographic order is total: of any two strings, one is less than or
/// equal to the other.
pub proof fn lemma_chars_le_total(a: Seq<char>, b: Seq<char>)
    ensures
        chars_le(a, b) || chars_le(b, a),
    decreases a.len(),
{
    if a.len() != 0 && b.len() != 0 && (a[0] as u32) == (b[0] as u32) {
        lemma_chars_le_total(a.skip(1), b.skip(1));
    }
}

/// Lexicographic order is antisymmetric: two strings each less than or equal
/// to the other are the same string.
pub proof fn lemma_chars_le_antisym(a: Seq<char>, b: Seq<char>)
    requires
        chars_le(a, b),
        chars_le(b, a),
    ensures
        a == b,
    decreases a.len(),
{
    if a.len() == 0 {
        assert(b.len() == 0);
        assert(a =~= b);
    } else {
        assert((a[0] as u32) == (b[0] as u32));
        vstd::utf8::char_u32_cast(a[0], a[0] as u32);
        vstd::utf8::char_u32_cast(b[0], b[0] as u32);
        assert(a[0] == b[0]);
        lemma_chars_le_antisym(a.skip(1), b.skip(1));
        assert(a =~= seq![a[0]] + a.skip(1));
        assert(b =~= seq![b[0]] + b.skip(1));
    }
}

/// Lexicographic order is transitive.
pub proof fn lemma_chars_le_trans(a: Seq<char>, b: Seq<char>, c: Seq<char>)
    requires
        chars_le(a, b),
        chars_le(b, c),
    ensures
        chars_le(a, c),
    decreases a.len(),
{
    if a.len() == 0 {
    } else {
        assert(b.len() != 0 && c.len() != 0);
        if (a[0] as u32) == (b[0] as u32) && (b[0] as u32) == (c[0] as u32) {
            lemma_chars_le_trans(a.skip(1), b.skip(1), c.skip(1));
        } else {
            assert((a[0] as u32) <= (b[0] as u32) <= (c[0] as u32));
            assert((a[0] as u32) < (c[0] as u32));
        }
    }
}

/// Dropping an equal first character from both strings keeps their order.
proof fn lemma_chars_le_skip_eq(a: Seq<char>, b: Seq<char>)
    requires
        a.len() > 0,
        b.len() > 0,
        a[0] == b[0],
    ensures
        chars_le(a, b) == chars_le(a.skip(1), b.skip(1)),
{
}

/// Compares two strings lexicographically by code point.
pub fn str_le(a: &str, b: &str) -> (r: bool)
    ensures
        r == chars_le(a@, b@),
{
    let la = a.unicode_len();
    let lb = b.unicode_len();
    let mut i: usize = 0;
    proof {
        assert(a@.skip(0) =~= a@);
        assert(b@.skip(0) =~= b@);
    }
    loop
        invariant
            la == a@.len(),
            lb == b@.len(),
            i <= la,
            i <= lb,
            chars_le(a@, b@) == chars_le(a@.skip(i as int), b@.skip(i as int)),
            chars_le(b@, a@) == chars_le(b@.skip(i as int), a@.skip(i as int)),
        decreases la - i,
    {
        if i >= la {
            assert(chars_le(a@.skip(i as int), b@.skip(i as int)));
            return true;
        }
        if i >= lb {
            assert(b@.skip(i as int).len() == 0);
            assert(!chars_le(a@.skip(i as int), b@.skip(i as int)));
            return false;
        }
        let ca = a.get_char(i);
        let cb = b.get_char(i);
        if (ca as u32) < (cb as u32) {
            assert(a@.skip(i as int)[0] == ca && b@.skip(i as int)[0] == cb);
            return true;
        }
        if (ca as u32) > (cb as u32) {
            assert(a@.skip(i as int)[0] == ca && b@.skip(i as int)[0] == cb);
            return false;
        }
        proof {
            assert(a@.skip(i as int)[0] == ca && b@.skip(i as int)[0] == cb);
            vstd::utf8::char_u32_cast(ca, ca as u32);
            vstd::utf8::char_u32_cast(cb, cb as u32);
            assert(ca == cb);
            lemma_chars_le_skip_eq(a@.skip(i as int), b@.skip(i as int));
            lemma_chars_le_skip_eq(b@.skip(i as int), a@.skip(i as int));
            assert(a@.skip(i as int).skip(1) =~= a@.skip(i + 1));
            assert(b@.skip(i as int).skip(1) =~= b@.skip(i + 1));
        }
        i = i + 1;
    }
}

/// Tests two strings for equality of their character sequences.
pub fn str_eq(a: &str, b: &str) -> (r: bool)
    ensures
        r == (a@ == b@),
{
    let la = a.unicode_len();
    let lb = b.unicode_len();
    if la != lb {
        return false;
    }
    let mut i: usize = 0;
    while i < la
        invariant
            la == a@.len(),
            la == lb == b@.len(),
            i <= la,
            forall|j: int| 0 <= j < i ==> a@[j] == b@[j],
        decreases la - i,
    {
        let ca = a.get_char(i);
        let cb = b.get_char(i);
        if (ca as u32) != (cb as u32) {
            assert(a@[i as int] != b@[i as int]);
            return false;
        }
        i = i + 1;
    }
    proof {
        assert(a@ =~= b@);
    }
    true
}

/// The mathematical value of one record: its strings as character sequences,
/// its numbers as integers.
#[verifier::ext_equal]
pub struct RecordModel {
    pub file: Seq<char>,
    pub cached_date: int,
    pub expire_date: int,
    pub last_modified_date: int,
    pub crc32: int,
    pub key: Seq<char>,
}

/// The models of a sequence of records.
pub open spec fn models(s: Seq<NgxCacheData>) -> Seq<RecordModel> {
    s.map_values(|r: NgxCacheData| r@)
}

/// The field names records can be ordered by.
pub open spec fn spec_sort_field(ob: Seq<char>) -> bool {
    ||| ob == "filename"@
    ||| ob == "cached"@
    ||| ob == "expire"@
    ||| ob == "modified"@
    ||| ob == "key"@
}

/// Whether a filter reorders at all: it names a sortable field and a
/// direction.
pub open spec fn spec_sorts(filter: NgxFilter) -> bool {
    filter.order != 0 && spec_sort_field(filter.order_by@)
}

/// "Less than or equal" on records under one sort field: lexicographic for
/// the path and key strings, numeric (chronological) for the timestamps.
pub open spec fn spec_field_le(ob: Seq<char>, a: RecordModel, b: RecordModel) -> bool {
    if ob == "filename"@ {
        chars_le(a.file, b.file)
    } else if ob == "cached"@ {
        a.cached_date <= b.cached_date
    } else if ob == "expire"@ {
        a.expire_date <= b.expire_date
    } else if ob == "modified"@ {
        a.last_modified_date <= b.last_modified_date
    } else {
        chars_le(a.key, b.key)
    }
}

/// The comparison the sort uses: the field's order ascending, or its mirror
/// image descending.
pub open spec fn spec_le(ob: Seq<char>, asc: bool, a: RecordModel, b: RecordModel) -> bool {
    if asc {
        spec_field_le(ob, a, b)
    } else {
        spec_field_le(ob, b, a)
    }
}

/// Where a stable insertion puts `x` into `s`: after every leading element
/// less than or equal to it — so an element equal on the sort field keeps its
/// place before `x` — and before the first greater one.
pub open spec fn spec_insert(ob: Seq<char>, asc: bool, x: RecordModel, s: Seq<RecordModel>) -> Seq<
    RecordModel,
>
    decreases s.len(),
{
    if s.len() == 0 {
        seq![x]
    } else if spec_le(ob, asc, s[0], x) {
        seq![s[0]] + spec_insert(ob, asc, x, s.skip(1))
    } else {
        seq![x] + s
    }
}

/// The stable sort of `s` under the chosen field and direction: each element
/// in turn, left to right, inserted into the sorted front. Because insertion
/// is stable, elements equal on the sort field keep their prior relative
/// order, so the result is a single, deterministic sequence.
pub open spec fn spec_sort(ob: Seq<char>, asc: bool, s: Seq<RecordModel>) -> Seq<RecordModel>
    decreases s.len(),
{
    if s.len() == 0 {
        s
    } else {
        spec_insert(ob, asc, s.last(), spec_sort(ob, asc, s.drop_last()))
    }
}

/// The sortable fields, matched once so the comparison inside the sort loop
/// needs no string tests. The expiration key is spelled `expire`, the one
/// canonical spelling this crate uses everywhere.
#[derive(Clone, Copy)]
enum SortField {
    ByFilename,
    ByCached,
    ByExpire,
    ByModified,
    ByKey,
}

spec fn spec_field_name(f: SortField) -> Seq<char> {
    match f {
        SortField::ByFilename => "filename"@,
        SortField::ByCached => "cached"@,
        SortField::ByExpire => "expire"@,
        SortField::ByModified => "modified"@,
        SortField::ByKey => "key"@,
    }
}

/// Maps a field name to its selector; `None` for `none` and for any name that
/// is not a sortable field.
fn sort_field_of(order_by: &String) -> (r: Option<SortField>)
    ensures
        r is Some <==> spec_sort_field(order_by@),
        r matches Some(f) ==> spec_field_name(f) == order_by@,
{
    if str_eq(order_by.as_str(), "filename") {
        Some(SortField::ByFilename)
    } else if str_eq(order_by.as_str(), "cached") {
        Some(SortField::ByCached)
    } else if str_eq(order_by.as_str(), "expire") {
        Some(SortField::ByExpire)
    } else if str_eq(order_by.as_str(), "modified") {
        Some(SortField::ByModified)
    } else if str_eq(order_by.as_str(), "key") {
        Some(SortField::ByKey)
    } else {
        None
    }
}

/// Compares two records on the selected field.
fn field_le_exec(f: &SortField, a: &NgxCacheData, b: &NgxCacheData) -> (r: bool)
    ensures
        r == spec_field_le(spec_field_name(*f), a@, b@),
{
    proof {
        reveal_strlit("filename");
        reveal_strlit("cached");
        reveal_strlit("expire");
        reveal_strlit("modified");
        reveal_strlit("key");
        assert("expire"@[0] != "cached"@[0]);
        assert("expire"@ != "cached"@);
        assert("modified"@[0] != "filename"@[0]);
        assert("modified"@ != "filename"@);
    }
    match *f {
        SortField::ByFilename => str_le(a.file.as_str(), b.file.as_str()),
        SortField::ByCached => a.cached_date <= b.cached_date,
        SortField::ByExpire => a.expire_date <= b.expire_date,
        SortField::ByModified => a.last_modified_date <= b.last_modified_date,
        SortField::ByKey => str_le(a.key.as_str(), b.key.as_str()),
    }
}

/// Compares two records under the selected field and direction.
fn rec_le(f: &SortField, asc: bool, a: &NgxCacheData, b: &NgxCacheData) -> (r: bool)
    ensures
        r == spec_le(spec_field_name(*f), asc, a@, b@),
{
    if asc {
        field_le_exec(f, a, b)
    } else {
        field_le_exec(f, b, a)
    }
}

/// Inserting at the first position whose element is not less than or equal to
/// `x` is exactly the stable insertion.
proof fn lemma_insert_at(ob: Seq<char>, asc: bool, x: RecordModel, s: Seq<RecordModel>, p: int)
    requires
        0 <= p <= s.len(),
        forall|q: int| 0 <= q < p ==> spec_le(ob, asc, s[q], x),
        p < s.len() ==> !spec_le(ob, asc, s[p], x),
    ensures
        spec_insert(ob, asc, x, s) == s.insert(p, x),
    decreases s.len(),
{
    if s.len() == 0 {
        assert(spec_insert(ob, asc, x, s) =~= s.insert(0, x));
    } else if p == 0 {
        assert(!spec_le(ob, asc, s[0], x));
        assert(seq![x] + s =~= s.insert(0, x));
    } else {
        assert(spec_le(ob, asc, s[0], x));
        assert forall|q: int| 0 <= q < p - 1 implies spec_le(ob, asc, s.skip(1)[q], x) by {
            assert(s.skip(1)[q] == s[q + 1]);
        }
        if p - 1 < s.skip(1).len() {
            assert(s.skip(1)[p - 1] == s[p]);
        }
        lemma_insert_at(ob, asc, x, s.skip(1), p - 1);
        assert(seq![s[0]] + s.skip(1).insert(p - 1, x) =~= s.insert(p, x));
    }
}

/// The position the insertion loop finds: past every leading element less
/// than or equal to `x`, at the first greater one.
fn find_pos(f: &SortField, asc: bool, out: &Vec<NgxCacheData>, x: &NgxCacheData) -> (p: usize)
    ensures
        p <= out.len(),
        forall|q: int| 0 <= q < p ==> spec_le(spec_field_name(*f), asc, out@[q]@, x@),
        p < out.len() ==> !spec_le(spec_field_name(*f), asc, out@[p as int]@, x@),
{
    let mut p: usize = 0;
    while p < out.len()
        invariant
            p <= out.len(),
            forall|q: int| 0 <= q < p ==> spec_le(spec_field_name(*f), asc, out@[q]@, x@),
        decreases out.len() - p,
    {
        if !rec_le(f, asc, &out[p], x) {
            return p;
        }
        p = p + 1;
    }
    p
}

/// Orders the records as the filter asks. With no direction, or a field that
/// is not sortable (`none` included), the records come back exactly as they
/// went in; otherwise they are stably sorted by the field, ascending when the
/// direction is `1`, descending otherwise.
pub fn sort_records(filter: &NgxFilter, data: Vec<NgxCacheData>) -> (r: Vec<NgxCacheData>)
    ensures
        spec_sorts(*filter) ==> models(r@) == spec_sort(
            filter.order_by@,
            filter.order == 1,
            models(data@),
        ),
        !spec_sorts(*filter) ==> r == data,
{
    if filter.order == 0 {
        return data;
    }
    let f = match sort_field_of(&filter.order_by) {
        Some(f) => f,
        None => {
            return data;
        },
    };
    let asc = filter.order == 1;
    let ghost ob = filter.order_by@;
    let ghost orig = data@;
    let mut rest = data;
    let mut out: Vec<NgxCacheData> = Vec::new();
    proof {
        assert(orig.skip(0) =~= orig);
        assert(orig.take(0) =~= Seq::<NgxCacheData>::empty());
        assert(models(out@) =~= spec_sort(ob, asc, models(orig.take(0))));
    }
    while rest.len() > 0
        invariant
            rest.len() <= orig.len(),
            rest@ == orig.skip(orig.len() - rest.len()),
            models(out@) == spec_sort(ob, asc, models(orig.take(orig.len() - rest.len()))),
            spec_field_name(f) == ob,
        decreases rest.len(),
    {
        let ghost k = orig.len() - rest.len();
        proof {
            assert(rest@[0] == orig[k]);
        }
        let x = rest.remove(0);
        proof {
            assert(rest@ =~= orig.skip(k + 1));
        }
        let p = find_pos(&f, asc, &out, &x);
        proof {
            assert forall|q: int| 0 <= q < p implies spec_le(ob, asc, models(out@)[q], x@) by {
                assert(models(out@)[q] == out@[q]@);
            }
            if p < out.len() {
                assert(models(out@)[p as int] == out@[p as int]@);
            }
            lemma_insert_at(ob, asc, x@, models(out@), p as int);
        }
        let ghost out_before = out@;
        out.insert(p, x);
        proof {
            assert(models(out@) =~= models(out_before).insert(p as int, x@));
            assert(models(orig.take(k + 1)).drop_last() =~= models(orig.take(k)));
            assert(models(orig.take(k + 1)).last() == orig[k]@);
            assert(models(orig.take(k + 1)).len() == k + 1);
            assert(spec_sort(ob, asc, models(orig.take(k + 1))) == spec_insert(
                ob,
                asc,
                orig[k]@,
                spec_sort(ob, asc, models(orig.take(k))),
            ));
        }
    }
    proof {
        assert(orig.take(orig.len() as int) =~= orig);
    }
    out
}

/// The field comparison is total: of any two records, one is less than or
/// equal to the other on any sort field.
pub proof fn lemma_field_le_total(ob: Seq<char>, a: RecordModel, b: RecordModel)
    ensures
        spec_field_le(ob, a, b) || spec_field_le(ob, b, a),
{
    if ob == "filename"@ {
        lemma_chars_le_total(a.file, b.file);
    } else if ob == "cached"@ || ob == "expire"@ || ob == "modified"@ {
    } else {
        lemma_chars_le_total(a.key, b.key);
    }
}

/// The field comparison is transitive on any sort field.
pub proof fn lemma_field_le_trans(ob: Seq<char>, a: RecordModel, b: RecordModel, c: RecordModel)
    requires
        spec_field_le(ob, a, b),
        spec_field_le(ob, b, c),
    ensures
        spec_field_le(ob, a, c),
{
    if ob == "filename"@ {
        lemma_chars_le_trans(a.file, b.file, c.file);
    } else if ob == "cached"@ || ob == "expire"@ || ob == "modified"@ {
    } else {
        lemma_chars_le_trans(a.key, b.key, c.key);
    }
}

/// A sequence ordered by the sort's comparison, each element less than or
/// equal to every later one.
pub open spec fn spec_sorted(ob: Seq<char>, asc: bool, s: Seq<RecordModel>) -> bool {
    forall|i: int, j: int| 0 <= i < j < s.len() ==> spec_le(ob, asc, s[i], s[j])
}

/// Every element of a stable insertion is the inserted record or one of the
/// records it was inserted among.
proof fn lemma_insert_elems(ob: Seq<char>, asc: bool, x: RecordModel, s: Seq<RecordModel>)
    ensures
        spec_insert(ob, asc, x, s).len() == s.len() + 1,
        forall|i: int|
            0 <= i < spec_insert(ob, asc, x, s).len() ==> (#[trigger] spec_insert(ob, asc, x, s)[i]
                == x || s.contains(spec_insert(ob, asc, x, s)[i])),
    decreases s.len(),
{
    if s.len() == 0 {
    } else if spec_le(ob, asc, s[0], x) {
        lemma_insert_elems(ob, asc, x, s.skip(1));
        let r = spec_insert(ob, asc, x, s);
        let r1 = spec_insert(ob, asc, x, s.skip(1));
        assert forall|i: int| 0 <= i < r.len() implies (#[trigger] r[i] == x || s.contains(
            r[i],
        )) by {
            if i == 0 {
                assert(s.contains(s[0]));
            } else {
                assert(r[i] == r1[i - 1]);
                if r1[i - 1] != x {
                    let k = choose|k: int| 0 <= k < s.skip(1).len() && s.skip(1)[k] == r1[i - 1];
                    assert(s[k + 1] == r1[i - 1]);
                    assert(s.contains(s[k + 1]));
                }
            }
        }
    } else {
        assert forall|i: int|
            0 <= i < spec_insert(ob, asc, x, s).len() implies (#[trigger] spec_insert(
            ob,
            asc,
            x,
            s,
        )[i] == x || s.contains(spec_insert(ob, asc, x, s)[i])) by {
            if i > 0 {
                assert(spec_insert(ob, asc, x, s)[i] == s[i - 1]);
                assert(s.contains(s[i - 1]));
            }
        }
    }
}

/// Stable insertion into an ordered sequence keeps it ordered.
proof fn lemma_insert_sorted(ob: Seq<char>, asc: bool, x: RecordModel, s: Seq<RecordModel>)
    requires
        spec_sorted(ob, asc, s),
    ensures
        spec_sorted(ob, asc, spec_insert(ob, asc, x, s)),
    decreases s.len(),
{
    if s.len() == 0 {
    } else if spec_le(ob, asc, s[0], x) {
        assert forall|i: int, j: int| 0 <= i < j < s.skip(1).len() implies spec_le(
            ob,
            asc,
            s.skip(1)[i],
            s.skip(1)[j],
        ) by {
            assert(s.skip(1)[i] == s[i + 1] && s.skip(1)[j] == s[j + 1]);
        }
        lemma_insert_sorted(ob, asc, x, s.skip(1));
        lemma_insert_elems(ob, asc, x, s.skip(1));
        let r = spec_insert(ob, asc, x, s);
        let r1 = spec_insert(ob, asc, x, s.skip(1));
        assert forall|i: int, j: int| 0 <= i < j < r.len() implies spec_le(ob, asc, r[i], r[j]) by {
            if i == 0 {
                assert(r[j] == r1[j - 1]);
                if r1[j - 1] == x {
                } else {
                    let k = choose|k: int|
                        0 <= k < s.skip(1).len() && s.skip(1)[k] == r1[j - 1];
                    assert(s[k + 1] == r1[j - 1]);
                    assert(spec_le(ob, asc, s[0], s[k + 1]));
                }
            } else {
                assert(r[i] == r1[i - 1] && r[j] == r1[j - 1]);
            }
        }
    } else {
        if asc {
            lemma_field_le_total(ob, s[0], x);
        } else {
            lemma_field_le_total(ob, x, s[0]);
        }
        assert(spec_le(ob, asc, x, s[0]));
        let r = spec_insert(ob, asc, x, s);
        assert forall|i: int, j: int| 0 <= i < j < r.len() implies spec_le(ob, asc, r[i], r[j]) by {
            if i == 0 {
                assert(r[j] == s[j - 1]);
                if j == 1 {
                } else {
                    assert(spec_le(ob, asc, s[0], s[j - 1]));
                    if asc {
                        lemma_field_le_trans(ob, x, s[0], s[j - 1]);
                    } else {
                        lemma_field_le_trans(ob, s[j - 1], s[0], x);
                    }
                }
            } else {
                assert(r[i] == s[i - 1] && r[j] == s[j - 1]);
            }
        }
    }
}

/// The stable sort orders its input.
pub proof fn lemma_sort_sorted(ob: Seq<char>, asc: bool, s: Seq<RecordModel>)
    ensures
        spec_sorted(ob, asc, spec_sort(ob, asc, s)),
        spec_sort(ob, asc, s).len() == s.len(),
    decreases s.len(),
{
    if s.len() > 0 {
        lemma_sort_sorted(ob, asc, s.drop_last());
        lemma_insert_sorted(ob, asc, s.last(), spec_sort(ob, asc, s.drop_last()));
        lemma_insert_elems(ob, asc, s.last(), spec_sort(ob, asc, s.drop_last()));
    }
}

/// The stable sort invents no record: whatever the sorted sequence holds was
/// in the input.
pub proof fn lemma_sort_elems(ob: Seq<char>, asc: bool, s: Seq<RecordModel>, e: RecordModel)
    requires
        spec_sort(ob, asc, s).contains(e),
    ensures
        s.contains(e),
    decreases s.len(),
{
    if s.len() > 0 {
        let t = spec_sort(ob, asc, s.drop_last());
        lemma_insert_elems(ob, asc, s.last(), t);
        let i = choose|i: int|
            0 <= i < spec_insert(ob, asc, s.last(), t).len() && spec_insert(ob, asc, s.last(), t)[i]
                == e;
        if spec_insert(ob, asc, s.last(), t)[i] == s.last() {
            assert(s[s.len() - 1] == e);
            assert(s.contains(e));
        } else {
            assert(t.contains(e));
            lemma_sort_elems(ob, asc, s.drop_last(), e);
            let k = choose|k: int| 0 <= k < s.drop_last().len() && s.drop_last()[k] == e;
            assert(s[k] == e);
            assert(s.contains(e));
        }
    }
}

/// Appending a record strictly greater than `x` commutes with inserting `x`.
proof fn lemma_insert_append(
    ob: Seq<char>,
    asc: bool,
    x: RecordModel,
    t: Seq<RecordModel>,
    l: RecordModel,
)
    requires
        !spec_le(ob, asc, l, x),
    ensures
        spec_insert(ob, asc, x, t.push(l)) == spec_insert(ob, asc, x, t).push(l),
    decreases t.len(),
{
    if t.len() == 0 {
        assert(t.push(l)[0] == l);
        assert(spec_insert(ob, asc, x, t.push(l)) =~= spec_insert(ob, asc, x, t).push(l));
    } else {
        assert(t.push(l)[0] == t[0]);
        if spec_le(ob, asc, t[0], x) {
            assert(t.push(l).skip(1) =~= t.skip(1).push(l));
            lemma_insert_append(ob, asc, x, t.skip(1), l);
            assert(seq![t[0]] + spec_insert(ob, asc, x, t.skip(1)).push(l) =~= (seq![t[0]]
                + spec_insert(ob, asc, x, t.skip(1))).push(l));
        } else {
            assert((seq![x] + t.push(l)) =~= (seq![x] + t).push(l));
        }
    }
}

/// A record every element is less than or equal to goes to the very end.
proof fn lemma_insert_all_le(ob: Seq<char>, asc: bool, x: RecordModel, t: Seq<RecordModel>)
    requires
        forall|i: int| 0 <= i < t.len() ==> spec_le(ob, asc, t[i], x),
    ensures
        spec_insert(ob, asc, x, t) == t.push(x),
    decreases t.len(),
{
    if t.len() == 0 {
        assert(spec_insert(ob, asc, x, t) =~= t.push(x));
    } else {
        assert(spec_le(ob, asc, t[0], x));
        assert forall|i: int| 0 <= i < t.skip(1).len() implies spec_le(ob, asc, t.skip(1)[i], x) by {
            assert(t.skip(1)[i] == t[i + 1]);
        }
        lemma_insert_all_le(ob, asc, x, t.skip(1));
        assert(seq![t[0]] + t.skip(1).push(x) =~= t.push(x));
    }
}

/// Two records no two of which compare equal on the field, inserted on the
/// two directions of the same field, mirror each other: inserting into the
/// reversed ascending order descending gives the reverse of inserting
/// ascending.
proof fn lemma_insert_reverse(ob: Seq<char>, x: RecordModel, t: Seq<RecordModel>)
    requires
        spec_sorted(ob, true, t),
        forall|e: RecordModel|
            t.contains(e) ==> !(spec_field_le(ob, x, e) && spec_field_le(ob, e, x)),
    ensures
        spec_insert(ob, false, x, t.reverse()) == spec_insert(ob, true, x, t).reverse(),
    decreases t.len(),
{
    if t.len() == 0 {
        assert(t.reverse() =~= t);
        assert(spec_insert(ob, false, x, t.reverse()) =~= spec_insert(ob, true, x, t).reverse());
    } else {
        let l = t.last();
        let tt = t.drop_last();
        assert(t.contains(l));
        assert(t.reverse() =~= seq![l] + tt.reverse());
        assert(t.reverse()[0] == l);
        assert forall|i: int, j: int| 0 <= i < j < tt.len() implies spec_le(ob, true, tt[i], tt[j]) by {
            assert(tt[i] == t[i] && tt[j] == t[j]);
        }
        assert forall|e: RecordModel| tt.contains(e) implies !(spec_field_le(ob, x, e)
            && spec_field_le(ob, e, x)) by {
            let k = choose|k: int| 0 <= k < tt.len() && tt[k] == e;
            assert(t[k] == e);
            assert(t.contains(t[k]));
        }
        if spec_field_le(ob, x, l) {
            assert(!spec_field_le(ob, l, x));
            assert(spec_le(ob, false, l, x));
            assert(spec_insert(ob, false, x, t.reverse()) == seq![l] + spec_insert(
                ob,
                false,
                x,
                (seq![l] + tt.reverse()).skip(1),
            ));
            assert((seq![l] + tt.reverse()).skip(1) =~= tt.reverse());
            lemma_insert_reverse(ob, x, tt);
            assert(!spec_le(ob, true, l, x));
            lemma_insert_append(ob, true, x, tt, l);
            assert(t =~= tt.push(l));
            assert(spec_insert(ob, true, x, t).reverse() =~= seq![l] + spec_insert(
                ob,
                true,
                x,
                tt,
            ).reverse());
        } else {
            lemma_field_le_total(ob, x, l);
            assert(spec_field_le(ob, l, x));
            assert(!spec_le(ob, false, l, x));
            assert(spec_insert(ob, false, x, t.reverse()) == seq![x] + t.reverse());
            assert forall|i: int| 0 <= i < t.len() implies spec_le(ob, true, t[i], x) by {
                if i < t.len() - 1 {
                    assert(spec_le(ob, true, t[i], t[t.len() - 1]));
                    lemma_field_le_trans(ob, t[i], l, x);
                }
            }
            lemma_insert_all_le(ob, true, x, t);
            assert(t.push(x).reverse() =~= seq![x] + t.reverse());
        }
    }
}

/// Two records tied on the sort field: each compares less than or equal to
/// the other.
pub open spec fn spec_field_eq(ob: Seq<char>, a: RecordModel, b: RecordModel) -> bool {
    spec_field_le(ob, a, b) && spec_field_le(ob, b, a)
}

/// The records tied with `v` on the sort field.
pub open spec fn spec_ties(ob: Seq<char>, v: RecordModel) -> spec_fn(RecordModel) -> bool {
    |e: RecordModel| spec_field_eq(ob, e, v)
}

/// A one-record sequence filters to itself or to nothing.
proof fn lemma_filter_singleton(x: RecordModel, pred: spec_fn(RecordModel) -> bool)
    ensures
        pred(x) ==> seq![x].filter(pred) == seq![x],
        !pred(x) ==> seq![x].filter(pred) == Seq::<RecordModel>::empty(),
{
    reveal(Seq::filter);
    assert(seq![x].last() == x);
    assert(seq![x].drop_last() =~= Seq::<RecordModel>::empty());
    assert(Seq::<RecordModel>::empty().filter(pred) == Seq::<RecordModel>::empty());
    if pred(x) {
        assert(seq![x].filter(pred) =~= seq![x]);
    }
}

/// A sequence none of whose records a predicate holds of filters to nothing.
proof fn lemma_filter_none(s: Seq<RecordModel>, pred: spec_fn(RecordModel) -> bool)
    requires
        forall|i: int| 0 <= i < s.len() ==> !pred(s[i]),
    ensures
        s.filter(pred) == Seq::<RecordModel>::empty(),
    decreases s.len(),
{
    reveal(Seq::filter);
    if s.len() > 0 {
        lemma_filter_none(s.drop_last(), pred);
        assert(!pred(s.last()));
    }
}

/// Stable insertion appends a record to the ties of its own class and leaves
/// every class it does not belong to untouched.
proof fn lemma_insert_filter(
    ob: Seq<char>,
    asc: bool,
    x: RecordModel,
    t: Seq<RecordModel>,
    v: RecordModel,
)
    requires
        spec_sorted(ob, asc, t),
    ensures
        spec_insert(ob, asc, x, t).filter(spec_ties(ob, v)) == if spec_field_eq(ob, x, v) {
            t.filter(spec_ties(ob, v)).push(x)
        } else {
            t.filter(spec_ties(ob, v))
        },
    decreases t.len(),
{
    reveal(Seq::filter);
    let pred = spec_ties(ob, v);
    lemma_filter_singleton(x, pred);
    if t.len() == 0 {
        assert(spec_insert(ob, asc, x, t) == seq![x]);
        assert(t.filter(pred) == t);
        assert(t =~= Seq::<RecordModel>::empty());
        if pred(x) {
            assert(t.filter(pred).push(x) =~= seq![x]);
        }
    } else if spec_le(ob, asc, t[0], x) {
        assert forall|i: int, j: int| 0 <= i < j < t.skip(1).len() implies spec_le(
            ob,
            asc,
            t.skip(1)[i],
            t.skip(1)[j],
        ) by {
            assert(t.skip(1)[i] == t[i + 1] && t.skip(1)[j] == t[j + 1]);
        }
        lemma_insert_filter(ob, asc, x, t.skip(1), v);
        Seq::filter_distributes_over_add(seq![t[0]], spec_insert(ob, asc, x, t.skip(1)), pred);
        Seq::filter_distributes_over_add(seq![t[0]], t.skip(1), pred);
        assert(t =~= seq![t[0]] + t.skip(1));
        if spec_field_eq(ob, x, v) {
            assert(seq![t[0]].filter(pred) + t.skip(1).filter(pred).push(x) =~= (seq![
                t[0],
            ].filter(pred) + t.skip(1).filter(pred)).push(x));
        }
    } else {
        assert(spec_insert(ob, asc, x, t) == seq![x] + t);
        Seq::filter_distributes_over_add(seq![x], t, pred);
        if spec_field_eq(ob, x, v) {
            assert forall|i: int| 0 <= i < t.len() implies !pred(t[i]) by {
                if pred(t[i]) {
                    // a tie with `v` would be a tie with `x`, and a tie with
                    // `x` cannot sit at or past the insertion point
                    lemma_field_le_trans(ob, t[i], v, x);
                    lemma_field_le_trans(ob, x, v, t[i]);
                    if i > 0 {
                        assert(spec_le(ob, asc, t[0], t[i]));
                        if asc {
                            lemma_field_le_trans(ob, t[0], t[i], x);
                        } else {
                            lemma_field_le_trans(ob, x, t[i], t[0]);
                        }
                    }
                }
            }
            lemma_filter_none(t, pred);
            assert(pred(x));
            assert((seq![x] + t).filter(pred) =~= t.filter(pred).push(x));
        } else {
            assert(!pred(x));
            assert((seq![x] + t).filter(pred) =~= t.filter(pred));
        }
    }
}

/// The sort is stable: the records tied with any fixed record on the sort
/// field come out in exactly the relative order they went in.
pub proof fn lemma_sort_stable(ob: Seq<char>, asc: bool, s: Seq<RecordModel>, v: RecordModel)
    ensures
        spec_sort(ob, asc, s).filter(spec_ties(ob, v)) == s.filter(spec_ties(ob, v)),
    decreases s.len(),
{
    reveal(Seq::filter);
    if s.len() > 0 {
        lemma_sort_stable(ob, asc, s.drop_last(), v);
        lemma_sort_sorted(ob, asc, s.drop_last());
        lemma_insert_filter(ob, asc, s.last(), spec_sort(ob, asc, s.drop_last()), v);
    }
}

/// Sorting records whose sort keys are pairwise distinct ascending and then
/// descending by the same field yields exactly reversed orderings.
pub proof fn lemma_sort_reverse(ob: Seq<char>, s: Seq<RecordModel>)
    requires
        forall|i: int, j: int|
            0 <= i < s.len() && 0 <= j < s.len() && i != j ==> !(spec_field_le(ob, s[i], s[j])
                && spec_field_le(ob, s[j], s[i])),
    ensures
        spec_sort(ob, false, s) == spec_sort(ob, true, s).reverse(),
    decreases s.len(),
{
    if s.len() == 0 {
        assert(spec_sort(ob, true, s).reverse() =~= s);
    } else {
        let x = s.last();
        let d = s.drop_last();
        assert forall|i: int, j: int|
            0 <= i < d.len() && 0 <= j < d.len() && i != j implies !(spec_field_le(ob, d[i], d[j])
            && spec_field_le(ob, d[j], d[i])) by {
            assert(d[i] == s[i] && d[j] == s[j]);
        }
        lemma_sort_reverse(ob, d);
        let t = spec_sort(ob, true, d);
        lemma_sort_sorted(ob, true, d);
        assert forall|e: RecordModel| t.contains(e) implies !(spec_field_le(ob, x, e)
            && spec_field_le(ob, e, x)) by {
            lemma_sort_elems(ob, true, d, e);
            let k = choose|k: int| 0 <= k < d.len() && d[k] == e;
            assert(s[k] == e && x == s[s.len() - 1] && k != s.len() - 1);
        }
        lemma_insert_reverse(ob, x, t);
    }
}

/// Sorting by `filename` ascending and then descending yields exactly
/// reversed orderings whenever the records' paths are pairwise distinct:
/// paths that differ compare strictly, so the two total orders mirror each
/// other.
pub proof fn lemma_filename_sort_reverse(s: Seq<RecordModel>)
    requires
        forall|i: int, j: int|
            0 <= i < s.len() && 0 <= j < s.len() && i != j ==> s[i].file != s[j].file,
    ensures
        spec_sort("filename"@, false, s) == spec_sort("filename"@, true, s).reverse(),
{
    assert forall|i: int, j: int|
        0 <= i < s.len() && 0 <= j < s.len() && i != j implies !(spec_field_le(
        "filename"@,
        s[i],
        s[j],
    ) && spec_field_le("filename"@, s[j], s[i])) by {
        if spec_field_le("filename"@, s[i], s[j]) && spec_field_le("filename"@, s[j], s[i]) {
            lemma_chars_le_antisym(s[i].file, s[j].file);
        }
    }
    lemma_sort_reverse("filename"@, s);
}

} // verus!
