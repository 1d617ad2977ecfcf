use vstd::prelude::*;

use crate::base255::{base255, base255_len, base255_value, lemma_base255_roundtrip, lemma_base255_shape};
use crate::bucket_file::{
    keys_file, keys_fit, lemma_keys_file_layout, lemma_record_fits, lemma_records_len,
    lemma_values_at_pointer, pointer_width, read_width, record, record_width, records,
    values_blob, values_bytes, zeros,
};
use crate::index_values::{lemma_read_index_roundtrip, lemma_values_bytes_first};
use crate::list_file::{agree_upto, lemma_first_zero_at, lex_le, lex_lt};
use crate::token_table::BucketView;
use crate::index_values::{group_value, read_index_file, read_index_spec};
use crate::list_file::{
    entry_matches, get_index_file_nr, read_header, header_spec, list_entry, list_sorted,
    r_exact, read_entry, search_spec, window,
};
use crate::map_latin_one::{is_latin1, latin1_bytes};

verus! {

/// How many bytes at the end of `s` are not 0.
pub open spec fn nonzero_suffix_len(s: Seq<u8>) -> nat
    decreases s.len(),
{
    if s.len() > 0 && s.last() != 0 {
        1 + nonzero_suffix_len(s.drop_last())
    } else {
        0
    }
}

/// How many bytes at the end of `s` are 0.
pub open spec fn zero_suffix_len(s: Seq<u8>) -> nat
    decreases s.len(),
{
    if s.len() > 0 && s.last() == 0 {
        1 + zero_suffix_len(s.drop_last())
    } else {
        0
    }
}

/// The two numbers at the end of a record of a keys file, read from its
/// end: the pointer's digits are the bytes after the last 0, and the count's
/// digits are the bytes that are not 0 right before the 0s that precede them.
/// Gives (count digits, pointer digits).
pub open spec fn record_fields(rec: Seq<u8>) -> (Seq<u8>, Seq<u8>) {
    let p = nonzero_suffix_len(rec);
    let rest = rec.take(rec.len() - p);
    let z = zero_suffix_len(rest);
    let rest2 = rest.take(rest.len() - z);
    let c = nonzero_suffix_len(rest2);
    (rest2.skip(rest2.len() - c), rec.skip(rec.len() - p))
}

/// The positions stored for entry `i` of a keys file: its record names how
/// many bytes of the values file to read and where they start; `None` when
/// the record or that stretch does not read.
pub open spec fn positions_spec(keys: Seq<u8>, values: Seq<u8>, i: int) -> Option<Seq<usize>> {
    match header_spec(keys) {
        None => None,
        Some(h) => if i < 0 || i >= h.0 {
            None
        } else {
            let fields = record_fields(list_entry(keys, h, i));
            let count = base255_value(fields.0);
            let ptr = base255_value(fields.1);
            let stretch = window(values, ptr, count as nat);
            if fields.0.len() > 0 && fields.1.len() > 0 && count <= usize::MAX && ptr <= usize::MAX
                && (stretch.len() == 0 || stretch[0] != 0) {
                read_index_spec(stretch)
            } else {
                None
            }
        },
    }
}

/// The bytes of the values file that record `i` of a keys file points to;
/// `None` when the header, the index or the record does not read.
pub open spec fn record_stretch(keys: Seq<u8>, values: Seq<u8>, i: int) -> Option<Seq<u8>> {
    match header_spec(keys) {
        None => None,
        Some(h) => if i < 0 || i >= h.0 {
            None
        } else {
            match record_pointer_spec(list_entry(keys, h, i)) {
                None => None,
                Some(cp) => Some(window(values, cp.1, cp.0 as nat)),
            }
        },
    }
}

/// Whether the positions that record `i` points to can be read: they do not
/// start with a 0 (reading positions stops on an empty first number).
pub open spec fn stretch_readable(keys: Seq<u8>, values: Seq<u8>, i: int) -> bool {
    record_stretch(keys, values, i) matches Some(st) ==> (st.len() == 0 || st[0] != 0)
}

/// The bytes that are not 0 at the end of `s[..end]`: where they start.
fn nonzero_run_start(s: &[u8], end: usize) -> (start: usize)
    requires
        end <= s@.len(),
    ensures
        start == end - nonzero_suffix_len(s@.take(end as int)),
{
    let mut k: usize = end;
    while k > 0 && s[k - 1] != 0
        invariant
            k <= end <= s@.len(),
            nonzero_suffix_len(s@.take(end as int)) == (end - k) + nonzero_suffix_len(s@.take(k as int)),
        decreases k,
    {
        assert(s@.take(k as int).drop_last() =~= s@.take(k - 1));
        k = k - 1;
    }
    k
}

/// The 0 bytes at the end of `s[..end]`: where they start.
fn zero_run_start(s: &[u8], end: usize) -> (start: usize)
    requires
        end <= s@.len(),
    ensures
        start == end - zero_suffix_len(s@.take(end as int)),
{
    let mut k: usize = end;
    while k > 0 && s[k - 1] == 0
        invariant
            k <= end <= s@.len(),
            zero_suffix_len(s@.take(end as int)) == (end - k) + zero_suffix_len(s@.take(k as int)),
        decreases k,
    {
        assert(s@.take(k as int).drop_last() =~= s@.take(k - 1));
        k = k - 1;
    }
    k
}

/// Copies `s[from..to]`.
fn copy_range(s: &[u8], from: usize, to: usize) -> (out: Vec<u8>)
    requires
        from <= to <= s@.len(),
    ensures
        out@ == s@.subrange(from as int, to as int),
{
    let mut out: Vec<u8> = Vec::new();
    let mut k: usize = from;
    while k < to
        invariant
            from <= k <= to <= s@.len(),
            out@ == s@.subrange(from as int, k as int),
        decreases to - k,
    {
        out.push(s[k]);
        k = k + 1;
        assert(out@ =~= s@.subrange(from as int, k as int));
    }
    out
}

/// The byte count and the pointer that a record of a keys file gives (see
/// `record_fields`); `None` when either is missing or does not fit in a
/// `usize`.
pub open spec fn record_pointer_spec(rec: Seq<u8>) -> Option<(int, int)> {
    let fields = record_fields(rec);
    let count = base255_value(fields.0);
    let ptr = base255_value(fields.1);
    if fields.0.len() > 0 && fields.1.len() > 0 && count <= usize::MAX && ptr <= usize::MAX {
        Some((count, ptr))
    } else {
        None
    }
}

/// Reads a record of a keys file: how many bytes of the values file hold
/// the word's positions, and where they start.
pub fn record_pointer(rec: &[u8]) -> (r: Option<(usize, usize)>)
    ensures
        r is Some <==> record_pointer_spec(rec@) is Some,
        r is Some ==> r.unwrap().0 == record_pointer_spec(rec@).unwrap().0
            && r.unwrap().1 == record_pointer_spec(rec@).unwrap().1,
{
    let ghost fields = record_fields(rec@);
    let len = rec.len();
    let p_start = nonzero_run_start(rec, len);
    assert(rec@.take(len as int) =~= rec@);
    let z_start = zero_run_start(rec, p_start);
    let c_start = nonzero_run_start(rec, z_start);
    let ghost rest = rec@.take(p_start as int);
    proof {
        assert(rest.take(z_start as int) =~= rec@.take(z_start as int));
        assert(rest.take(z_start as int).take(c_start as int) =~= rec@.take(c_start as int));
        assert(rest.take(z_start as int).skip(c_start as int) =~= rec@.subrange(c_start as int, z_start as int));
        assert(rec@.skip(p_start as int) =~= rec@.subrange(p_start as int, len as int));
        assert(fields.0 == rec@.subrange(c_start as int, z_start as int));
        assert(fields.1 == rec@.subrange(p_start as int, len as int));
    }
    let count_digits = copy_range(rec, c_start, z_start);
    let ptr_digits = copy_range(rec, p_start, len);
    proof {
        lemma_nonzero_suffix(rec@.take(len as int));
        lemma_nonzero_suffix(rec@.take(z_start as int));
        assert forall|k: int| 0 <= k < count_digits@.len() implies count_digits@[k] != 0 by {
            assert(count_digits@[k] == rec@.take(z_start as int)[c_start + k]);
        }
        assert forall|k: int| 0 <= k < ptr_digits@.len() implies ptr_digits@[k] != 0 by {
            assert(ptr_digits@[k] == rec@.take(len as int)[p_start + k]);
        }
    }
    let count = match group_value(&count_digits) {
        Some(v) => v,
        None => return None,
    };
    let ptr = match group_value(&ptr_digits) {
        Some(v) => v,
        None => return None,
    };
    Some((count, ptr))
}

/// Reads the positions stored for entry `index` of a keys file from the
/// values file.
pub fn read_record_positions(keys: &[u8], values: &[u8], index: usize) -> (r: Option<Vec<usize>>)
    requires
        stretch_readable(keys@, values@, index as int),
    ensures
        positions_spec(keys@, values@, index as int) is None ==> r is None,
        positions_spec(keys@, values@, index as int) is Some ==> r is Some
            && r.unwrap()@ == positions_spec(keys@, values@, index as int).unwrap(),
{
    let (amount_of_entries, len_of_entry, header_size) = match read_header(keys) {
        Some(h) => h,
        None => return None,
    };
    if index >= amount_of_entries {
        return None;
    }
    let ghost h = header_spec(keys@).unwrap();
    let rec = read_entry(keys, header_size, len_of_entry, index);
    assert(rec@ == list_entry(keys@, h, index as int));
    let (count, ptr) = match record_pointer(rec.as_slice()) {
        Some(p) => p,
        None => return None,
    };
    let stretch = r_exact(values, ptr, count);
    assert(record_stretch(keys@, values@, index as int) == Some(stretch@));
    read_index_file(stretch.as_slice())
}

/// Whether the positions of entry `index` of a keys file can be read from
/// the values file (see `stretch_readable`).
pub fn positions_readable(keys: &[u8], values: &[u8], index: usize) -> (ok: bool)
    ensures
        ok == stretch_readable(keys@, values@, index as int),
{
    let (amount_of_entries, len_of_entry, header_size) = match read_header(keys) {
        Some(h) => h,
        None => return true,
    };
    if index >= amount_of_entries {
        return true;
    }
    let ghost h = header_spec(keys@).unwrap();
    let rec = read_entry(keys, header_size, len_of_entry, index);
    assert(rec@ == list_entry(keys@, h, index as int));
    let (count, ptr) = match record_pointer(rec.as_slice()) {
        Some(p) => p,
        None => return true,
    };
    if count == 0 {
        return true;
    }
    let first = r_exact(values, ptr, 1);
    assert(first@[0] == window(values@, ptr as int, count as nat)[0]);
    first[0] != 0
}

/// The bytes at the end of `s` that `nonzero_suffix_len` counts are not 0.
proof fn lemma_nonzero_suffix(s: Seq<u8>)
    ensures
        nonzero_suffix_len(s) <= s.len(),
        forall|k: int| s.len() - nonzero_suffix_len(s) <= k < s.len() ==> s[k] != 0,
    decreases s.len(),
{
    if s.len() > 0 && s.last() != 0 {
        lemma_nonzero_suffix(s.drop_last());
        assert forall|k: int| s.len() - nonzero_suffix_len(s) <= k < s.len() implies s[k] != 0 by {
            if k < s.len() - 1 {
                assert(s[k] == s.drop_last()[k]);
            }
        }
    }
}

/// Looks `word` up in a keys file and reads its positions from the values
/// file.
pub fn find_positions(keys: &[u8], values: &[u8], word: &str) -> (r: Option<Vec<usize>>)
    requires
        search_spec(keys@, word@).0 matches Some(i) ==> stretch_readable(keys@, values@, i),
    ensures
        search_spec(keys@, word@).0 is None ==> r is None,
        search_spec(keys@, word@).0 matches Some(i) ==> (positions_spec(keys@, values@, i) is None ==> r is None)
            && (positions_spec(keys@, values@, i) is Some ==> r is Some && r.unwrap()@ == positions_spec(
            keys@,
            values@,
            i,
        ).unwrap()),
        r is Some ==> header_spec(keys@) is Some && is_latin1(word@) && exists|i: int|
            0 <= i < header_spec(keys@).unwrap().0 && entry_matches(
                latin1_bytes(word@),
                #[trigger] list_entry(keys@, header_spec(keys@).unwrap(), i),
            ) && positions_spec(keys@, values@, i) == Some(r.unwrap()@),
        r is None && header_spec(keys@) is Some && is_latin1(word@) && list_sorted(
            keys@,
            header_spec(keys@).unwrap(),
        ) ==> (forall|i: int|
            0 <= i < header_spec(keys@).unwrap().0 ==> !entry_matches(
                latin1_bytes(word@),
                #[trigger] list_entry(keys@, header_spec(keys@).unwrap(), i),
            )) || (exists|i: int|
            0 <= i < header_spec(keys@).unwrap().0 && entry_matches(
                latin1_bytes(word@),
                #[trigger] list_entry(keys@, header_spec(keys@).unwrap(), i),
            ) && positions_spec(keys@, values@, i) is None),
{
    let index = match get_index_file_nr(keys, word) {
        Some(i) => i,
        None => return None,
    };
    let r = read_record_positions(keys, values, index);
    assert(list_entry(keys@, header_spec(keys@).unwrap(), index as int) == list_entry(
        keys@,
        header_spec(keys@).unwrap(),
        index as int,
    ));
    r
}

/// A word's Latin-1 bytes padded with zeros to `longest` bytes: the start of
/// its record.
pub open spec fn padded_key(key: Seq<char>, longest: nat) -> Seq<u8> {
    latin1_bytes(key) + zeros((longest - key.len()) as nat)
}

/// The word is Latin-1 and holds no NUL character, so each of its bytes is
/// not 0.
pub open spec fn plain_word(key: Seq<char>) -> bool {
    forall|t: int| 0 <= t < key.len() ==> 0 < (#[trigger] key[t] as u32) < 256
}

/// The words of a bucket are in strictly ascending byte order (a shorter
/// word counting as padded with zeros).
pub open spec fn keys_ascending(b: BucketView) -> bool {
    forall|i: int, k: int|
        0 <= i < k < b.1.len() ==> lex_lt(
            #[trigger] padded_key(b.1[i].0, b.0),
            #[trigger] padded_key(b.1[k].0, b.0),
        )
}

/// Record `i` of the keys file of bucket `b`.
pub open spec fn bucket_record(b: BucketView, i: int) -> Seq<u8> {
    record(
        b.0,
        read_width(b.1),
        pointer_width(b.1),
        b.1[i].0,
        values_bytes(b.1[i].1).len(),
        values_blob(b.1.take(i)).len(),
    )
}

/// The header of the keys file of bucket `b`, as `get_header_info` reads it.
pub open spec fn written_header(b: BucketView) -> (nat, nat, nat) {
    (b.1.len(), record_width(b), base255_len(b.1.len()) + base255_len(record_width(b)) + 2)
}

/// A record is its padded word, a 0, the padded count, the count's digits,
/// a 0, the pointer's padding and the pointer's digits.
proof fn lemma_record_parts(longest: nat, read_w: nat, ptr_w: nat, key: Seq<char>, len: nat, ptr: nat)
    requires
        key.len() <= longest,
        base255_len(len) <= read_w,
        base255_len(ptr) <= ptr_w,
    ensures
        ({
            let pk = padded_key(key, longest);
            let a = pk + seq![0u8] + zeros((read_w - base255(len).len()) as nat);
            let tail = seq![0u8] + zeros((ptr_w - base255(ptr).len()) as nat);
            let rec = record(longest, read_w, ptr_w, key, len, ptr);
            &&& rec == a + base255(len) + tail + base255(ptr)
            &&& pk.len() == longest
            &&& rec.len() > longest
            &&& rec.take(longest as int) == pk
            &&& rec[longest as int] == 0
        }),
{
    lemma_base255_shape(len);
    lemma_base255_shape(ptr);
    let pk = padded_key(key, longest);
    let a = pk + seq![0u8] + zeros((read_w - base255(len).len()) as nat);
    let tail = seq![0u8] + zeros((ptr_w - base255(ptr).len()) as nat);
    let rec = record(longest, read_w, ptr_w, key, len, ptr);
    assert(rec =~= a + base255(len) + tail + base255(ptr));
    assert(rec.take(longest as int) =~= pk);
}

/// Digits that are not 0 after a 0 (or at the start) are the whole suffix
/// that is not 0.
proof fn lemma_nonzero_suffix_of(y: Seq<u8>, d: Seq<u8>)
    requires
        forall|k: int| 0 <= k < d.len() ==> d[k] != 0,
        y.len() == 0 || y.last() == 0,
    ensures
        nonzero_suffix_len(y + d) == d.len(),
    decreases d.len(),
{
    if d.len() > 0 {
        lemma_nonzero_suffix_of(y, d.drop_last());
        assert((y + d).drop_last() =~= y + d.drop_last());
    } else {
        assert(y + d =~= y);
    }
}

/// Zero bytes after a byte that is not 0 (or at the start) are the whole
/// suffix of zeros.
proof fn lemma_zero_suffix_of(y: Seq<u8>, z: Seq<u8>)
    requires
        forall|k: int| 0 <= k < z.len() ==> z[k] == 0,
        y.len() == 0 || y.last() != 0,
    ensures
        zero_suffix_len(y + z) == z.len(),
    decreases z.len(),
{
    if z.len() > 0 {
        lemma_zero_suffix_of(y, z.drop_last());
        assert((y + z).drop_last() =~= y + z.drop_last());
    } else {
        assert(y + z =~= y);
    }
}

/// Reading a written record from its end gives back the digits of its count
/// and of its pointer.
proof fn lemma_record_fields_of_record(longest: nat, read_w: nat, ptr_w: nat, key: Seq<char>, len: nat, ptr: nat)
    requires
        key.len() <= longest,
        base255_len(len) <= read_w,
        base255_len(ptr) <= ptr_w,
    ensures
        record_fields(record(longest, read_w, ptr_w, key, len, ptr)) == (base255(len), base255(ptr)),
{
    lemma_record_parts(longest, read_w, ptr_w, key, len, ptr);
    lemma_base255_shape(len);
    lemma_base255_shape(ptr);
    let pk = padded_key(key, longest);
    let a = pk + seq![0u8] + zeros((read_w - base255(len).len()) as nat);
    let tail = seq![0u8] + zeros((ptr_w - base255(ptr).len()) as nat);
    let dc = base255(len);
    let dp = base255(ptr);
    let rec = record(longest, read_w, ptr_w, key, len, ptr);
    let y1 = a + dc + tail;
    assert(y1.last() == 0) by {
        assert(tail.len() > 0);
        assert(y1.last() == tail.last());
        assert(tail.last() == 0);
    }
    lemma_nonzero_suffix_of(y1, dp);
    let rest = rec.take(rec.len() - dp.len());
    assert(rest =~= y1);
    assert(rec.skip(rec.len() - dp.len()) =~= dp);
    let y2 = a + dc;
    assert(y2.last() == dc.last());
    assert(dc.last() != 0);
    lemma_zero_suffix_of(y2, tail);
    let rest2 = rest.take(rest.len() - tail.len());
    assert(rest2 =~= y2);
    assert(a.last() == 0) by {
        let zr = zeros((read_w - base255(len).len()) as nat);
        if zr.len() > 0 {
            assert(a.last() == zr.last());
        } else {
            assert(a =~= pk + seq![0u8]);
        }
    }
    lemma_nonzero_suffix_of(a, dc);
    assert(rest2.skip(rest2.len() - dc.len()) =~= dc);
}

/// The records of the first `k` words are the first `k` record widths of the
/// records of all words.
proof fn lemma_records_prefix(b: BucketView, k: int)
    requires
        keys_fit(b),
        0 <= k <= b.1.len(),
    ensures
        records(b.1, b.0, read_width(b.1), pointer_width(b.1)).take(k * record_width(b))
            == records(b.1.take(k), b.0, read_width(b.1), pointer_width(b.1)),
    decreases b.1.len() - k,
{
    let es = b.1;
    let all = records(es, b.0, read_width(es), pointer_width(es));
    lemma_records_len(b, k);
    if k == es.len() {
        assert(es.take(k) =~= es);
        assert(all.take(k * record_width(b)) =~= all);
    } else {
        lemma_records_prefix(b, k + 1);
        assert(es.take(k + 1).drop_last() =~= es.take(k));
        let big = records(es.take(k + 1), b.0, read_width(es), pointer_width(es));
        let small = records(es.take(k), b.0, read_width(es), pointer_width(es));
        assert(big.take(small.len() as int) =~= small);
        lemma_records_len(b, k + 1);
        lemma_records_len(b, es.len() as int);
        assert(es.take(es.len() as int) =~= es);
        assert(k * record_width(b) <= (k + 1) * record_width(b)) by (nonlinear_arith)
            requires
                k >= 0,
        ;
        assert((k + 1) * record_width(b) <= es.len() * record_width(b)) by (nonlinear_arith)
            requires
                k + 1 <= es.len(),
        ;
        assert(all.take(k * record_width(b)) =~= all.take((k + 1) * record_width(b)).take(k * record_width(b)));
    }
}

/// Record `i` stands at `i` record widths into the records.
proof fn lemma_record_at(b: BucketView, i: int)
    requires
        keys_fit(b),
        0 <= i < b.1.len(),
    ensures
        (i + 1) * record_width(b) <= b.1.len() * record_width(b),
        records(b.1, b.0, read_width(b.1), pointer_width(b.1)).subrange(
            i * record_width(b),
            i * record_width(b) + record_width(b),
        ) == bucket_record(b, i),
{
    let es = b.1;
    let w = record_width(b);
    let all = records(es, b.0, read_width(es), pointer_width(es));
    lemma_records_prefix(b, i + 1);
    lemma_records_len(b, i);
    lemma_records_len(b, b.1.len() as int);
    assert(es.take(es.len() as int) =~= es);
    assert(es.take(i + 1).drop_last() =~= es.take(i));
    assert(es.take(i + 1).last() == es[i]);
    assert((i + 1) * w == i * w + w) by (nonlinear_arith);
    assert((i + 1) * w <= es.len() * w) by (nonlinear_arith)
        requires
            i + 1 <= es.len(),
            w >= 0,
    ;
    let pre = records(es.take(i + 1), b.0, read_width(es), pointer_width(es));
    assert(pre == records(es.take(i), b.0, read_width(es), pointer_width(es)) + bucket_record(b, i));
    assert(all.subrange(i * w, i * w + w) =~= pre.subrange(i * w, i * w + w));
    assert(pre.subrange(i * w, i * w + w) =~= bucket_record(b, i));
}

/// The header of a written keys file reads as the number of words, the
/// record width and the header's own length.
proof fn lemma_written_header(b: BucketView)
    requires
        keys_fit(b),
        b.1.len() > 0,
        keys_file(b).len() <= usize::MAX,
    ensures
        header_spec(keys_file(b)) == Some(written_header(b)),
{
    let n = b.1.len();
    let w = record_width(b);
    let d1 = base255(n);
    let d2 = base255(w);
    let rs = records(b.1, b.0, read_width(b.1), pointer_width(b.1));
    let keys = keys_file(b);
    lemma_base255_shape(n);
    lemma_base255_shape(w);
    lemma_base255_roundtrip(n);
    lemma_base255_roundtrip(w);
    lemma_keys_file_layout(b);
    assert(w >= 2);
    assert(n * w >= n && n * w >= w) by (nonlinear_arith)
        requires
            n >= 1,
            w >= 1,
    ;
    let m1 = d1.len() as int;
    assert forall|i: int| 0 <= i < m1 implies keys[i] != 0 by {
        assert(keys[i] == d1[i]);
    }
    assert(keys[m1] == 0);
    lemma_first_zero_at(keys, m1);
    let rest = keys.skip(m1 + 1);
    assert(rest =~= d2 + seq![0u8] + rs);
    let m2 = d2.len() as int;
    assert forall|i: int| 0 <= i < m2 implies rest[i] != 0 by {
        assert(rest[i] == d2[i]);
    }
    assert(rest[m2] == 0);
    lemma_first_zero_at(rest, m2);
    assert(keys.take(m1) =~= d1);
    assert(keys.subrange(m1 + 1, m1 + 1 + m2) =~= d2);
}

/// Entry `i` of a written keys file is the record of word `i`.
proof fn lemma_written_entry(b: BucketView, i: int)
    requires
        keys_fit(b),
        0 <= i < b.1.len(),
    ensures
        list_entry(keys_file(b), written_header(b), i) == bucket_record(b, i),
{
    let n = b.1.len();
    let w = record_width(b);
    let hs = base255_len(n) + base255_len(w) + 2;
    let rs = records(b.1, b.0, read_width(b.1), pointer_width(b.1));
    let keys = keys_file(b);
    lemma_base255_shape(n);
    lemma_base255_shape(w);
    lemma_keys_file_layout(b);
    lemma_record_at(b, i);
    assert(w * i == i * w) by (nonlinear_arith);
    lemma_records_len(b, n as int);
    assert(b.1.take(n as int) =~= b.1);
    assert((i + 1) * w == i * w + w) by (nonlinear_arith);
    let head = base255(n) + seq![0u8] + base255(w) + seq![0u8];
    assert(keys =~= head + rs);
    assert(head.len() == hs);
    assert(list_entry(keys, written_header(b), i) =~= rs.subrange(i * w, i * w + w));
}

/// The records of a bucket whose words are in strictly ascending byte order
/// are in ascending byte order.
proof fn lemma_written_sorted(b: BucketView)
    requires
        keys_fit(b),
        keys_ascending(b),
    ensures
        list_sorted(keys_file(b), written_header(b)),
{
    let keys = keys_file(b);
    let h = written_header(b);
    assert forall|i: int, k: int| 0 <= i <= k < h.0 implies lex_le(
        #[trigger] list_entry(keys, h, i),
        #[trigger] list_entry(keys, h, k),
    ) by {
        lemma_written_entry(b, i);
        lemma_written_entry(b, k);
        if i < k {
            let ri = bucket_record(b, i);
            let rk = bucket_record(b, k);
            let pi = padded_key(b.1[i].0, b.0);
            let pk = padded_key(b.1[k].0, b.0);
            lemma_record_fits(b, i);
            lemma_record_fits(b, k);
            lemma_record_parts(b.0, read_width(b.1), pointer_width(b.1), b.1[i].0,
                values_bytes(b.1[i].1).len(), values_blob(b.1.take(i)).len());
            lemma_record_parts(b.0, read_width(b.1), pointer_width(b.1), b.1[k].0,
                values_bytes(b.1[k].1).len(), values_blob(b.1.take(k)).len());
            assert(lex_lt(pi, pk));
            let m = choose|m: int| 0 <= m < pi.len() && m < pk.len() && #[trigger] agree_upto(pi, pk, m) && pi[m] < pk[m];
            assert(ri.take(b.0 as int) == pi);
            assert(rk.take(b.0 as int) == pk);
            assert forall|t: int| 0 <= t < m implies ri[t] == rk[t] by {
                assert(ri[t] == ri.take(b.0 as int)[t]);
                assert(rk[t] == rk.take(b.0 as int)[t]);
            }
            assert(ri[m] == ri.take(b.0 as int)[m]);
            assert(rk[m] == rk.take(b.0 as int)[m]);
            assert(agree_upto(ri, rk, m));
            assert(lex_lt(ri, rk));
        }
    }
}

/// In a written keys file whose words are plain and strictly ascending, the
/// record of word `i` stands for word `j` exactly when `i` is `j`.
proof fn lemma_written_match(b: BucketView, j: int, i: int)
    requires
        keys_fit(b),
        keys_ascending(b),
        forall|t: int| 0 <= t < b.1.len() ==> plain_word(#[trigger] b.1[t].0),
        0 <= j < b.1.len(),
        0 <= i < b.1.len(),
    ensures
        entry_matches(latin1_bytes(b.1[j].0), bucket_record(b, i)) <==> i == j,
{
    let l = b.0;
    let w = latin1_bytes(b.1[j].0);
    let ri = bucket_record(b, i);
    let pi = padded_key(b.1[i].0, l);
    let pj = padded_key(b.1[j].0, l);
    lemma_record_fits(b, i);
    lemma_record_fits(b, j);
    lemma_record_parts(l, read_width(b.1), pointer_width(b.1), b.1[i].0,
        values_bytes(b.1[i].1).len(), values_blob(b.1.take(i)).len());
    assert(plain_word(b.1[i].0));
    assert(plain_word(b.1[j].0));
    assert forall|t: int| 0 <= t < l implies ri[t] == #[trigger] pi[t] by {
        assert(ri[t] == ri.take(l as int)[t]);
    }
    assert forall|t: int| 0 <= t < b.1[i].0.len() implies #[trigger] pi[t] != 0 by {
        let c = b.1[i].0[t];
        assert(pi[t] == (c as u32) as u8);
        assert(0 < (c as u32) < 256);
    }
    assert forall|t: int| 0 <= t < b.1[j].0.len() implies #[trigger] w[t] != 0 by {
        let c = b.1[j].0[t];
        assert(w[t] == (c as u32) as u8);
        assert(0 < (c as u32) < 256);
    }
    if i == j {
        assert(ri.take(w.len() as int) =~= w) by {
            assert forall|t: int| 0 <= t < w.len() implies ri.take(w.len() as int)[t] == w[t] by {
                assert(ri[t] == pi[t]);
            }
        }
        if w.len() < l {
            assert(ri[w.len() as int] == pi[w.len() as int]);
        }
    } else if entry_matches(w, ri) {
        // the record of word i starts with word j's bytes, then a 0
        assert forall|t: int| 0 <= t < w.len() implies pi[t] == #[trigger] w[t] by {
            assert(ri.take(w.len() as int)[t] == ri[t]);
        }
        if b.1[i].0.len() < w.len() {
            let t = b.1[i].0.len() as int;
            assert(pi[t] == 0);
            assert(pi[t] == w[t]);
        }
        if b.1[i].0.len() > w.len() {
            let t = w.len() as int;
            assert(ri[t] == 0);
            assert(ri[t] == pi[t]);
        }
        assert(b.1[i].0.len() == w.len());
        assert(pi =~= pj) by {
            assert forall|t: int| 0 <= t < pi.len() implies pi[t] == pj[t] by {
                if t < w.len() {
                    assert(pj[t] == w[t]);
                }
            }
        }
        if i < j {
            assert(lex_lt(pi, pj));
        } else {
            assert(lex_lt(pj, pi));
        }
        let m = choose|m: int| 0 <= m < pi.len() && m < pj.len() && #[trigger] agree_upto(pi, pj, m) && pi[m] < pj[m];
        let m2 = choose|m: int| 0 <= m < pj.len() && m < pi.len() && #[trigger] agree_upto(pj, pi, m) && pj[m] < pi[m];
        assert(false);
    }
}

/// What the writer puts in a bucket's two files, the reader gives back: the
/// header reads as the number of words and the record width, the records
/// are in ascending byte order, the record of word `j` is the only one that
/// stands for word `j`, and the positions read through it are word `j`'s
/// positions. Together with the contracts of `get_index_file_nr` and
/// `find_positions`, looking word `j` up in the written files gives index
/// `j` and its positions.
pub proof fn lemma_written_word_is_found(b: BucketView, j: int)
    requires
        keys_fit(b),
        keys_ascending(b),
        forall|t: int| 0 <= t < b.1.len() ==> plain_word(#[trigger] b.1[t].0),
        0 <= j < b.1.len(),
        keys_file(b).len() <= usize::MAX,
        values_blob(b.1).len() <= usize::MAX,
    ensures
        header_spec(keys_file(b)) == Some(written_header(b)),
        list_sorted(keys_file(b), written_header(b)),
        is_latin1(b.1[j].0),
        forall|i: int| 0 <= i < b.1.len() ==> (entry_matches(
            latin1_bytes(b.1[j].0),
            #[trigger] list_entry(keys_file(b), written_header(b), i),
        ) <==> i == j),
        positions_spec(keys_file(b), values_blob(b.1), j) == Some(b.1[j].1),
{
    let es = b.1;
    let keys = keys_file(b);
    let values = values_blob(es);
    lemma_written_header(b);
    lemma_written_sorted(b);
    assert(plain_word(es[j].0));
    assert forall|i: int| 0 <= i < es.len() implies (entry_matches(
        latin1_bytes(es[j].0),
        #[trigger] list_entry(keys, written_header(b), i),
    ) <==> i == j) by {
        lemma_written_entry(b, i);
        lemma_written_match(b, j, i);
    }
    // the positions read through record j
    let len = values_bytes(es[j].1).len();
    let ptr = values_blob(es.take(j)).len();
    lemma_written_entry(b, j);
    lemma_record_fits(b, j);
    lemma_record_fields_of_record(b.0, read_width(es), pointer_width(es), es[j].0, len, ptr);
    lemma_base255_shape(len);
    lemma_base255_shape(ptr);
    lemma_base255_roundtrip(len);
    lemma_base255_roundtrip(ptr);
    lemma_values_at_pointer(es, j);
    assert(window(values, ptr as int, len) =~= values.subrange(ptr as int, (ptr + len) as int));
    lemma_read_index_roundtrip(es[j].1);
    lemma_values_bytes_first(es[j].1);
}

/// Searching the written keys file for word `j`: every result that the
/// contract of `get_index_file_nr` allows is `Some(j)`.
pub proof fn lemma_search_finds_written_word(b: BucketView, j: int, r: Option<usize>)
    requires
        keys_fit(b),
        keys_ascending(b),
        forall|t: int| 0 <= t < b.1.len() ==> plain_word(#[trigger] b.1[t].0),
        0 <= j < b.1.len(),
        keys_file(b).len() <= usize::MAX,
        values_blob(b.1).len() <= usize::MAX,
        r is Some ==> header_spec(keys_file(b)) is Some && is_latin1(b.1[j].0)
            && r.unwrap() < header_spec(keys_file(b)).unwrap().0
            && entry_matches(
                latin1_bytes(b.1[j].0),
                list_entry(keys_file(b), header_spec(keys_file(b)).unwrap(), r.unwrap() as int),
            ),
        r is None && header_spec(keys_file(b)) is Some && is_latin1(b.1[j].0) && list_sorted(
            keys_file(b),
            header_spec(keys_file(b)).unwrap(),
        ) ==> forall|i: int|
            0 <= i < header_spec(keys_file(b)).unwrap().0 ==> !entry_matches(
                latin1_bytes(b.1[j].0),
                #[trigger] list_entry(keys_file(b), header_spec(keys_file(b)).unwrap(), i),
            ),
    ensures
        r == Some(j as usize),
{
    lemma_written_word_is_found(b, j);
    let h = written_header(b);
    if r is None {
        assert(entry_matches(latin1_bytes(b.1[j].0), list_entry(keys_file(b), h, j)));
    } else {
        assert(entry_matches(latin1_bytes(b.1[j].0), list_entry(keys_file(b), h, r.unwrap() as int)));
    }
}

/// Looking word `j` up in the written files: every result that the contract
/// of `find_positions` allows is word `j`'s positions.
pub proof fn lemma_lookup_reads_back_written_word(b: BucketView, j: int, r: Option<Seq<usize>>)
    requires
        keys_fit(b),
        keys_ascending(b),
        forall|t: int| 0 <= t < b.1.len() ==> plain_word(#[trigger] b.1[t].0),
        0 <= j < b.1.len(),
        keys_file(b).len() <= usize::MAX,
        values_blob(b.1).len() <= usize::MAX,
        r is Some ==> header_spec(keys_file(b)) is Some && is_latin1(b.1[j].0) && exists|i: int|
            0 <= i < header_spec(keys_file(b)).unwrap().0 && entry_matches(
                latin1_bytes(b.1[j].0),
                #[trigger] list_entry(keys_file(b), header_spec(keys_file(b)).unwrap(), i),
            ) && positions_spec(keys_file(b), values_blob(b.1), i) == Some(r.unwrap()),
        r is None && header_spec(keys_file(b)) is Some && is_latin1(b.1[j].0) && list_sorted(
            keys_file(b),
            header_spec(keys_file(b)).unwrap(),
        ) ==> (forall|i: int|
            0 <= i < header_spec(keys_file(b)).unwrap().0 ==> !entry_matches(
                latin1_bytes(b.1[j].0),
                #[trigger] list_entry(keys_file(b), header_spec(keys_file(b)).unwrap(), i),
            )) || (exists|i: int|
            0 <= i < header_spec(keys_file(b)).unwrap().0 && entry_matches(
                latin1_bytes(b.1[j].0),
                #[trigger] list_entry(keys_file(b), header_spec(keys_file(b)).unwrap(), i),
            ) && positions_spec(keys_file(b), values_blob(b.1), i) is None),
    ensures
        r == Some(b.1[j].1),
{
    lemma_written_word_is_found(b, j);
    let h = written_header(b);
    if r is None {
        assert(entry_matches(latin1_bytes(b.1[j].0), list_entry(keys_file(b), h, j)));
    }
}

} // verus!
