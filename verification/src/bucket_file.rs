use vstd::prelude::*;

use crate::base255::{
    base255, base255_fits, base255_len, base255_writable, convert_to_base_255_as_bytes,
    digit_count, lemma_base255_len_monotone, lemma_base255_shape, lemma_below_pow_len,
    lemma_writable_monotone,
};
use crate::map_latin_one::latin1_bytes;
use crate::text::char_count;
use crate::token_table::{Bucket, BucketView, EntryView, TokenTable};

verus! {

/// `n` zero bytes.
pub open spec fn zeros(n: nat) -> Seq<u8> {
    Seq::new(n, |i: int| 0u8)
}

/// `digits` preceded by zero bytes up to a total length of `width`.
pub open spec fn padded(digits: Seq<u8>, width: nat) -> Seq<u8> {
    zeros((width - digits.len()) as nat) + digits
}

/// The positions of one word as stored in the values file: each position's
/// base-255 digits followed by a 0 byte.
pub open spec fn values_bytes(vals: Seq<usize>) -> Seq<u8>
    decreases vals.len(),
{
    if vals.len() == 0 {
        Seq::empty()
    } else {
        values_bytes(vals.drop_last()) + base255(vals.last() as nat) + seq![0u8]
    }
}

/// The values file of a bucket: the stored positions of all its words, one
/// word after the other.
pub open spec fn values_blob(es: Seq<EntryView>) -> Seq<u8>
    decreases es.len(),
{
    if es.len() == 0 {
        Seq::empty()
    } else {
        values_blob(es.drop_last()) + values_bytes(es.last().1)
    }
}

/// The largest number of bytes that one word's positions take in the values
/// file (0 for no words).
pub open spec fn max_values_len(es: Seq<EntryView>) -> nat
    decreases es.len(),
{
    if es.len() == 0 {
        0
    } else {
        let m = max_values_len(es.drop_last());
        let l = values_bytes(es.last().1).len();
        if m < l { l } else { m }
    }
}

/// Width of the "bytes to read" field of a record.
pub open spec fn read_width(es: Seq<EntryView>) -> nat {
    base255_len(max_values_len(es))
}

/// Width of the pointer field of a record: the digit count of the last
/// word's pointer, the largest of them.
pub open spec fn pointer_width(es: Seq<EntryView>) -> nat {
    base255_len(values_blob(es.drop_last()).len())
}

/// The byte length of every record of the keys file.
pub open spec fn record_width(b: BucketView) -> nat {
    b.0 + 1 + read_width(b.1) + 1 + pointer_width(b.1)
}

/// One record of the keys file: the word's Latin-1 bytes padded with zeros to
/// the longest word's length, a 0, the number of bytes its positions take
/// (base-255, zero-padded on the left to `read_w`), a 0, and the position of
/// its first byte in the values file (base-255, zero-padded to `ptr_w`).
pub open spec fn record(longest: nat, read_w: nat, ptr_w: nat, key: Seq<char>, len: nat, ptr: nat) -> Seq<u8> {
    let kb = latin1_bytes(key);
    kb + zeros((longest - kb.len()) as nat) + seq![0u8] + padded(base255(len), read_w) + seq![0u8]
        + padded(base255(ptr), ptr_w)
}

/// The records of the first words of a bucket.
pub open spec fn records(es: Seq<EntryView>, longest: nat, read_w: nat, ptr_w: nat) -> Seq<u8>
    decreases es.len(),
{
    if es.len() == 0 {
        Seq::empty()
    } else {
        records(es.drop_last(), longest, read_w, ptr_w) + record(
            longest,
            read_w,
            ptr_w,
            es.last().0,
            values_bytes(es.last().1).len(),
            values_blob(es.drop_last()).len(),
        )
    }
}

/// The keys file of a bucket: a header with the number of words and the
/// record width (base-255, each followed by a 0), then one record per word.
pub open spec fn keys_file(b: BucketView) -> Seq<u8> {
    base255(b.1.len()) + seq![0u8] + base255(record_width(b)) + seq![0u8] + records(
        b.1,
        b.0,
        read_width(b.1),
        pointer_width(b.1),
    )
}

/// No word of a bucket has more characters than the recorded longest length.
pub open spec fn keys_fit(b: BucketView) -> bool {
    forall|j: int| 0 <= j < b.1.len() ==> (#[trigger] b.1[j]).0.len() <= b.0
}

/// Every number that the files of a bucket spell in base 255 can be
/// converted (see `base255_writable`): each position and, for a bucket with
/// words, the number of words, the record width, the largest byte count of
/// a word's positions and the last word's pointer (the others are no
/// larger); and the values file fits in memory.
pub open spec fn numbers_writable(b: BucketView) -> bool {
    &&& forall|j: int, k: int|
        0 <= j < b.1.len() && 0 <= k < b.1[j].1.len() ==> base255_writable(#[trigger] b.1[j].1[k] as nat)
    &&& values_blob(b.1).len() <= usize::MAX
    &&& b.1.len() > 0 ==> {
        &&& base255_writable(b.1.len())
        &&& base255_writable(record_width(b))
        &&& base255_writable(max_values_len(b.1))
        &&& base255_writable(values_blob(b.1.drop_last()).len())
    }
}

/// What a bucket needs to be encoded.
pub open spec fn encodable(b: BucketView) -> bool {
    keys_fit(b) && numbers_writable(b)
}

/// The Latin-1 bytes of a word.
fn latin1_of(key: &str) -> (bytes: Vec<u8>)
    ensures
        bytes@ == latin1_bytes(key@),
{
    let mut bytes: Vec<u8> = Vec::new();
    let ghost chars = key@;
    for c in it: key.chars()
        invariant
            it.seq() == chars,
            bytes@ == latin1_bytes(chars.take(it.index() as int)),
    {
        let code: u32 = c as u32;
        bytes.push(code as u8);
        assert(bytes@ =~= latin1_bytes(chars.take(it.index() + 1)));
    }
    assert(chars.take(chars.len() as int) =~= chars);
    bytes
}

/// Appends `n` zero bytes.
fn push_zeros(out: &mut Vec<u8>, n: usize)
    ensures
        final(out)@ == old(out)@ + zeros(n as nat),
{
    let mut k: usize = 0;
    while k < n
        invariant
            k <= n,
            out@ == old(out)@ + zeros(k as nat),
        decreases n - k,
    {
        out.push(0);
        k = k + 1;
        assert(out@ =~= old(out)@ + zeros(k as nat));
    }
}

/// Appends the bytes of `src`.
fn push_bytes(out: &mut Vec<u8>, src: &[u8])
    ensures
        final(out)@ == old(out)@ + src@,
{
    let mut k: usize = 0;
    while k < src.len()
        invariant
            k <= src@.len(),
            out@ == old(out)@ + src@.take(k as int),
        decreases src@.len() - k,
    {
        out.push(src[k]);
        k = k + 1;
        assert(out@ =~= old(out)@ + src@.take(k as int));
    }
    assert(src@.take(src@.len() as int) =~= src@);
}

/// The stored positions of the first words are a prefix, so never longer.
proof fn lemma_values_bytes_grows(vals: Seq<usize>, i: int, j: int)
    requires
        0 <= i <= j <= vals.len(),
    ensures
        values_bytes(vals.take(i)).len() <= values_bytes(vals.take(j)).len(),
    decreases j - i,
{
    if i < j {
        lemma_values_bytes_grows(vals, i, j - 1);
        assert(vals.take(j).drop_last() =~= vals.take(j - 1));
    }
}

/// The values file of the first words is never longer than that of more words.
proof fn lemma_values_blob_grows(es: Seq<EntryView>, i: int, j: int)
    requires
        0 <= i <= j <= es.len(),
    ensures
        values_blob(es.take(i)).len() <= values_blob(es.take(j)).len(),
    decreases j - i,
{
    if i < j {
        lemma_values_blob_grows(es, i, j - 1);
        assert(es.take(j).drop_last() =~= es.take(j - 1));
    }
}

/// No word's positions take more bytes than the maximum.
proof fn lemma_max_values_len(es: Seq<EntryView>, i: int)
    requires
        0 <= i < es.len(),
    ensures
        values_bytes(es[i].1).len() <= max_values_len(es),
    decreases es.len(),
{
    if i < es.len() - 1 {
        lemma_max_values_len(es.drop_last(), i);
    }
}

/// Appends one record of the keys file.
fn push_record(
    out: &mut Vec<u8>,
    key: &[u8],
    longest: usize,
    len_digits: &[u8],
    read_w: usize,
    ptr_digits: &[u8],
    ptr_w: usize,
)
    requires
        key@.len() <= longest,
        len_digits@.len() <= read_w,
        ptr_digits@.len() <= ptr_w,
    ensures
        final(out)@ == old(out)@ + (key@ + zeros((longest - key@.len()) as nat) + seq![0u8] + padded(
            len_digits@,
            read_w as nat,
        ) + seq![0u8] + padded(ptr_digits@, ptr_w as nat)),
{
    push_bytes(out, key);
    push_zeros(out, longest - key.len());
    out.push(0);
    push_zeros(out, read_w - len_digits.len());
    push_bytes(out, len_digits);
    out.push(0);
    push_zeros(out, ptr_w - ptr_digits.len());
    push_bytes(out, ptr_digits);
    assert(out@ =~= old(out)@ + (key@ + zeros((longest - key@.len()) as nat) + seq![0u8] + padded(
        len_digits@,
        read_w as nat,
    ) + seq![0u8] + padded(ptr_digits@, ptr_w as nat)));
}

/// Appends the stored form of a word's positions and returns its length.
fn encode_values(values: &Vec<usize>, out: &mut Vec<u8>) -> (n: usize)
    requires
        forall|k: int| 0 <= k < values@.len() ==> base255_writable(#[trigger] values@[k] as nat),
    ensures
        final(out)@ == old(out)@ + values_bytes(values@),
        n == values_bytes(values@).len(),
{
    let mut n: usize = 0;
    let mut k: usize = 0;
    while k < values.len()
        invariant
            k <= values@.len(),
            out@ == old(out)@ + values_bytes(values@.take(k as int)),
            n == values_bytes(values@.take(k as int)).len(),
            forall|j: int| 0 <= j < values@.len() ==> base255_writable(#[trigger] values@[j] as nat),
        decreases values@.len() - k,
    {
        let digits = convert_to_base_255_as_bytes(values[k]);
        assert(values@.take(k + 1).drop_last() =~= values@.take(k as int));
        push_bytes(out, digits.as_slice());
        out.push(0);
        // a vector's length fits in a usize, which bounds the counts below
        assert(out@.len() == out.len());
        n = n + 1 + digits.len();
        k = k + 1;
        assert(out@ =~= old(out)@ + values_bytes(values@.take(k as int)));
    }
    assert(values@.take(values@.len() as int) =~= values@);
    n
}

/// The number of bytes that `values` take in the values file; `None` when
/// one of them cannot be converted or the bytes do not fit in memory.
fn values_len_checked(values: &Vec<usize>) -> (r: Option<usize>)
    ensures
        r is Some <==> (forall|k: int| 0 <= k < values@.len() ==> base255_writable(#[trigger] values@[k] as nat))
            && values_bytes(values@).len() <= usize::MAX,
        r is Some ==> r.unwrap() == values_bytes(values@).len(),
{
    let mut n: usize = 0;
    let mut k: usize = 0;
    while k < values.len()
        invariant
            k <= values@.len(),
            n == values_bytes(values@.take(k as int)).len(),
            forall|j: int| 0 <= j < k ==> base255_writable(#[trigger] values@[j] as nat),
        decreases values@.len() - k,
    {
        assert(values@.take(k + 1).drop_last() =~= values@.take(k as int));
        assert(values@.take(k + 1).last() == values@[k as int]);
        proof {
            lemma_base255_shape(values@[k as int] as nat);
        }
        if !base255_fits(values[k]) {
            return None;
        }
        let step = digit_count(values[k]) + 1;
        match n.checked_add(step) {
            None => {
                proof {
                    lemma_values_bytes_grows(values@, k + 1, values@.len() as int);
                    assert(values@.take(values@.len() as int) =~= values@);
                }
                return None;
            },
            Some(m) => {
                n = m;
            },
        }
        k = k + 1;
    }
    assert(values@.take(values@.len() as int) =~= values@);
    Some(n)
}

/// Whether a bucket can be encoded (see `encodable`).
pub fn bucket_encodable(bucket: &Bucket) -> (ok: bool)
    ensures
        ok == encodable(bucket@),
{
    let ghost es = bucket@.1;
    let ghost b = bucket@;
    let n = bucket.entries.len();
    assert(es.len() == n);
    let mut total: usize = 0;
    let mut max: usize = 0;
    let mut last_ptr: usize = 0;
    let mut i: usize = 0;
    while i < n
        invariant
            n == bucket.entries@.len(),
            b == bucket@,
            es == b.1,
            i <= n,
            total == values_blob(es.take(i as int)).len(),
            max == max_values_len(es.take(i as int)),
            i > 0 ==> last_ptr == values_blob(es.take(i - 1)).len(),
            forall|j: int| 0 <= j < i ==> (#[trigger] es[j]).0.len() <= b.0,
            forall|j: int, k: int|
                0 <= j < i && 0 <= k < es[j].1.len() ==> base255_writable(#[trigger] es[j].1[k] as nat),
        decreases n - i,
    {
        proof {
            assert(es[i as int] == bucket.entries@[i as int]@);
            assert(es.take(i + 1).drop_last() =~= es.take(i as int));
            assert(es.take(i + 1).last() == es[i as int]);
            lemma_values_blob_grows(es, i + 1, n as int);
            assert(es.take(n as int) =~= es);
        }
        if char_count(bucket.entries[i].key.as_str()) > bucket.longest_key_len {
            return false;
        }
        let len = match values_len_checked(&bucket.entries[i].values) {
            None => {
                return false;
            },
            Some(l) => l,
        };
        last_ptr = total;
        total = match total.checked_add(len) {
            None => {
                return false;
            },
            Some(t) => t,
        };
        if max < len {
            max = len;
        }
        i = i + 1;
    }
    assert(es.take(n as int) =~= es);
    if n == 0 {
        return true;
    }
    assert(es.take(n - 1) =~= es.drop_last());
    if !base255_fits(n) || !base255_fits(max) || !base255_fits(last_ptr) {
        return false;
    }
    let width = bucket.longest_key_len.checked_add(1 + digit_count(max) + 1 + digit_count(last_ptr));
    proof {
        lemma_below_pow_len(record_width(b));
    }
    match width {
        None => false,
        Some(w) => base255_fits(w),
    }
}

/// A record whose fields fit their widths is exactly `record_width` long.
pub proof fn lemma_record_len(longest: nat, read_w: nat, ptr_w: nat, key: Seq<char>, len: nat, ptr: nat)
    requires
        key.len() <= longest,
        base255_len(len) <= read_w,
        base255_len(ptr) <= ptr_w,
    ensures
        record(longest, read_w, ptr_w, key, len, ptr).len() == longest + 1 + read_w + 1 + ptr_w,
{
    lemma_base255_shape(len);
    lemma_base255_shape(ptr);
}

/// Every record of a keys file fits its fields' widths.
pub(crate) proof fn lemma_record_fits(b: BucketView, i: int)
    requires
        keys_fit(b),
        0 <= i < b.1.len(),
    ensures
        base255_len(values_bytes(b.1[i].1).len()) <= read_width(b.1),
        base255_len(values_blob(b.1.take(i)).len()) <= pointer_width(b.1),
        b.1[i].0.len() <= b.0,
{
    let es = b.1;
    lemma_max_values_len(es, i);
    lemma_base255_len_monotone(values_bytes(es[i].1).len(), max_values_len(es));
    lemma_values_blob_grows(es, i, es.len() - 1);
    assert(es.take(es.len() - 1) =~= es.drop_last());
    lemma_base255_len_monotone(values_blob(es.take(i)).len(), values_blob(es.drop_last()).len());
}

/// The records of the first `i` words take `i` record widths.
pub(crate) proof fn lemma_records_len(b: BucketView, i: int)
    requires
        keys_fit(b),
        0 <= i <= b.1.len(),
    ensures
        records(b.1.take(i), b.0, read_width(b.1), pointer_width(b.1)).len() == i * record_width(b),
    decreases i,
{
    if i > 0 {
        let es = b.1;
        lemma_records_len(b, i - 1);
        assert(es.take(i).drop_last() =~= es.take(i - 1));
        lemma_record_fits(b, i - 1);
        lemma_record_len(b.0, read_width(es), pointer_width(es), es[i - 1].0,
            values_bytes(es[i - 1].1).len(), values_blob(es.take(i - 1)).len());
        assert(es.take(i).last() == es[i - 1]);
        let rec = record(b.0, read_width(es), pointer_width(es), es[i - 1].0,
            values_bytes(es[i - 1].1).len(), values_blob(es.take(i - 1)).len());
        assert(records(es.take(i), b.0, read_width(es), pointer_width(es))
            == records(es.take(i - 1), b.0, read_width(es), pointer_width(es)) + rec);
        assert(rec.len() == record_width(b));
        let prev = records(es.take(i - 1), b.0, read_width(es), pointer_width(es));
        assert(prev.len() == (i - 1) * record_width(b));
        assert((i - 1) * record_width(b) + record_width(b) == i * record_width(b)) by (nonlinear_arith);
        assert(records(es.take(i), b.0, read_width(es), pointer_width(es)).len() == i * record_width(b));
    } else {
        assert(b.1.take(0) =~= Seq::<EntryView>::empty());
        assert(records(b.1.take(0), b.0, read_width(b.1), pointer_width(b.1)).len() == 0);
        assert(0 * record_width(b) == 0);
    }
}

/// The keys file of a bucket with words is its header followed by one
/// record of `record_width` bytes per word.
pub proof fn lemma_keys_file_layout(b: BucketView)
    requires
        keys_fit(b),
        b.1.len() > 0,
    ensures
        keys_file(b).len() == base255_len(b.1.len()) + 1 + base255_len(record_width(b)) + 1
            + b.1.len() * record_width(b),
        forall|i: int| 0 <= i < b.1.len() ==> #[trigger] record(
            b.0,
            read_width(b.1),
            pointer_width(b.1),
            b.1[i].0,
            values_bytes(b.1[i].1).len(),
            values_blob(b.1.take(i)).len(),
        ).len() == record_width(b),
{
    lemma_records_len(b, b.1.len() as int);
    assert(b.1.take(b.1.len() as int) =~= b.1);
    lemma_base255_shape(b.1.len());
    lemma_base255_shape(record_width(b));
    assert forall|i: int| 0 <= i < b.1.len() implies #[trigger] record(
        b.0,
        read_width(b.1),
        pointer_width(b.1),
        b.1[i].0,
        values_bytes(b.1[i].1).len(),
        values_blob(b.1.take(i)).len(),
    ).len() == record_width(b) by {
        lemma_record_fits(b, i);
        lemma_record_len(b.0, read_width(b.1), pointer_width(b.1), b.1[i].0,
            values_bytes(b.1[i].1).len(), values_blob(b.1.take(i)).len());
    }
}

/// Encodes a bucket into its keys file and its values file; `None` for a
/// bucket without words, for which no files are written.
pub fn encode_bucket(bucket: &Bucket) -> (files: Option<(Vec<u8>, Vec<u8>)>)
    requires
        encodable(bucket@),
    ensures
        bucket@.1.len() == 0 ==> files is None,
        bucket@.1.len() > 0 ==> files is Some && files.unwrap().0@ == keys_file(bucket@)
            && files.unwrap().1@ == values_blob(bucket@.1),
{
    let n = bucket.entries.len();
    if n == 0 {
        return None;
    }
    let ghost es = bucket@.1;
    assert(es.len() == n);
    let mut values_out: Vec<u8> = Vec::new();
    let mut lens: Vec<Vec<u8>> = Vec::new();
    let mut pointers: Vec<Vec<u8>> = Vec::new();
    let mut passed: usize = 0;
    let mut max_to_read: usize = 0;
    let mut i: usize = 0;
    while i < n
        invariant
            n == bucket.entries@.len(),
            es == bucket@.1,
            i <= n,
            values_out@ == values_blob(es.take(i as int)),
            passed == values_out@.len(),
            max_to_read == max_values_len(es.take(i as int)),
            lens@.len() == i,
            pointers@.len() == i,
            forall|k: int| 0 <= k < i ==> (#[trigger] lens@[k])@ == base255(values_bytes(es[k].1).len()),
            forall|k: int| 0 <= k < i ==> (#[trigger] pointers@[k])@ == base255(values_blob(es.take(k)).len()),
            encodable(bucket@),
            n > 0,
        decreases n - i,
    {
        proof {
            assert(es.take(i + 1).drop_last() =~= es.take(i as int));
            assert(es[i as int] == bucket.entries@[i as int]@);
            let vals = bucket.entries@[i as int].values@;
            assert forall|k: int| 0 <= k < vals.len() implies base255_writable(#[trigger] vals[k] as nat) by {
                assert(es[i as int].1[k] == vals[k]);
            }
            lemma_max_values_len(es, i as int);
            lemma_values_blob_grows(es, i as int, n - 1);
            assert(es.take(n - 1) =~= es.drop_last());
            lemma_writable_monotone(values_blob(es.take(i as int)).len(), values_blob(es.drop_last()).len());
        }
        let len = encode_values(&bucket.entries[i].values, &mut values_out);
        // a vector's length fits in a usize, which bounds `passed` below
        assert(values_out@.len() == values_out.len());
        if max_to_read < len {
            max_to_read = len;
        }
        proof {
            lemma_writable_monotone(len as nat, max_values_len(es));
        }
        lens.push(convert_to_base_255_as_bytes(len));
        pointers.push(convert_to_base_255_as_bytes(passed));
        passed = passed + len;
        i = i + 1;
    }
    assert(es.take(n as int) =~= es);
    let read_digits = convert_to_base_255_as_bytes(max_to_read);
    let read_w = read_digits.len();
    let ptr_w = pointers[n - 1].len();
    proof {
        lemma_base255_shape(max_to_read as nat);
        assert(es.take(n - 1) =~= es.drop_last());
        lemma_base255_shape(values_blob(es.drop_last()).len());
    }
    let ghost longest = bucket@.0;
    let mut body: Vec<u8> = Vec::new();
    let mut i: usize = 0;
    while i < n
        invariant
            n == bucket.entries@.len(),
            n > 0,
            es == bucket@.1,
            longest == bucket@.0,
            encodable(bucket@),
            i <= n,
            lens@.len() == n,
            pointers@.len() == n,
            forall|k: int| 0 <= k < n ==> (#[trigger] lens@[k])@ == base255(values_bytes(es[k].1).len()),
            forall|k: int| 0 <= k < n ==> (#[trigger] pointers@[k])@ == base255(values_blob(es.take(k)).len()),
            read_w == read_width(es),
            ptr_w == pointer_width(es),
            body@ == records(es.take(i as int), longest, read_w as nat, ptr_w as nat),
        decreases n - i,
    {
        let key_bytes = latin1_of(bucket.entries[i].key.as_str());
        proof {
            assert(es[i as int] == bucket.entries@[i as int]@);
            assert(es.take(i + 1).drop_last() =~= es.take(i as int));
            lemma_record_fits(bucket@, i as int);
            lemma_base255_shape(values_bytes(es[i as int].1).len());
            lemma_base255_shape(values_blob(es.take(i as int)).len());
        }
        push_record(
            &mut body,
            key_bytes.as_slice(),
            bucket.longest_key_len,
            lens[i].as_slice(),
            read_w,
            pointers[i].as_slice(),
            ptr_w,
        );
        i = i + 1;
        proof {
            let rec = record(longest, read_w as nat, ptr_w as nat, es[i - 1].0,
                values_bytes(es[i - 1].1).len(), values_blob(es.take(i - 1)).len());
            assert(records(es.take(i as int), longest, read_w as nat, ptr_w as nat)
                == records(es.take(i - 1), longest, read_w as nat, ptr_w as nat) + rec);
            assert(body@ =~= records(es.take(i as int), longest, read_w as nat, ptr_w as nat));
        }
    }
    // the records hold at least one record width, and fit in a usize
    assert(body@.len() == body.len());
    proof {
        lemma_records_len(bucket@, n as int);
        assert(n * record_width(bucket@) >= record_width(bucket@)) by (nonlinear_arith)
            requires
                n >= 1,
        ;
    }
    let width = bucket.longest_key_len + 1 + read_w + 1 + ptr_w;
    let mut keys_out = convert_to_base_255_as_bytes(n);
    keys_out.push(0);
    let width_digits = convert_to_base_255_as_bytes(width);
    push_bytes(&mut keys_out, width_digits.as_slice());
    keys_out.push(0);
    keys_out.append(&mut body);
    Some((keys_out, values_out))
}

/// Encodes bucket `h` of a table built from the token list (see
/// `encode_bucket`); the table's invariant makes every bucket encodable.
pub fn encode_table_bucket(table: &TokenTable, h: usize) -> (files: Option<(Vec<u8>, Vec<u8>)>)
    requires
        table.wf(),
        h < table.buckets@.len(),
        numbers_writable(table@.0[h as int]),
    ensures
        table@.0[h as int].1.len() == 0 ==> files is None,
        table@.0[h as int].1.len() > 0 ==> files is Some && files.unwrap().0@ == keys_file(table@.0[h as int])
            && files.unwrap().1@ == values_blob(table@.0[h as int].1),
{
    let bucket = &table.buckets[h];
    assert(bucket@ == table@.0[h as int]);
    assert forall|j: int| 0 <= j < bucket@.1.len() implies (#[trigger] bucket@.1[j]).0.len() <= bucket@.0 by {
        assert(table@.0[h as int].1[j] == bucket@.1[j]);
    }
    encode_bucket(bucket)
}

/// The header of a bucket's keys file gives the number of words and the
/// record width, and every record has that width. The width is the longest
/// word's length, a separator, the digit count of the largest byte count of
/// a word's positions, a separator, and the digit count of the last word's
/// pointer, which is the byte length of the positions of all earlier words.
pub proof fn lemma_keys_file_header(b: BucketView)
    requires
        keys_fit(b),
        b.1.len() > 0,
    ensures
        ({
            let n = b.1.len();
            let last_ptr = values_blob(b.1.take(n - 1)).len();
            let w = b.0 + 1 + base255(max_values_len(b.1)).len() + 1 + base255(last_ptr).len();
            let head = base255(n) + seq![0u8] + base255(w) + seq![0u8];
            &&& keys_file(b).take(head.len() as int) == head
            &&& keys_file(b).len() == head.len() + n * w
        }),
{
    let n = b.1.len();
    assert(b.1.take(n - 1) =~= b.1.drop_last());
    let last_ptr = values_blob(b.1.take(n - 1)).len();
    lemma_base255_shape(last_ptr);
    lemma_base255_shape(max_values_len(b.1));
    lemma_base255_shape(n);
    let w = b.0 + 1 + base255(max_values_len(b.1)).len() + 1 + base255(last_ptr).len();
    assert(record_width(b) == w);
    lemma_keys_file_layout(b);
    lemma_base255_shape(record_width(b));
    let head = base255(n) + seq![0u8] + base255(w) + seq![0u8];
    let rest = records(b.1, b.0, read_width(b.1), pointer_width(b.1));
    assert(keys_file(b) =~= head + rest);
    assert(keys_file(b).take(head.len() as int) =~= head);
}

/// The values file of the first words is the start of the values file.
proof fn lemma_values_blob_prefix(es: Seq<EntryView>, i: int)
    requires
        0 <= i <= es.len(),
    ensures
        values_blob(es.take(i)).len() <= values_blob(es).len(),
        values_blob(es).take(values_blob(es.take(i)).len() as int) == values_blob(es.take(i)),
    decreases es.len() - i,
{
    if i < es.len() {
        lemma_values_blob_prefix(es, i + 1);
        assert(es.take(i + 1).drop_last() =~= es.take(i));
        let a = values_blob(es.take(i));
        let b = values_blob(es.take(i + 1));
        assert(b.take(a.len() as int) =~= a);
        assert(values_blob(es).take(a.len() as int) =~= b.take(a.len() as int));
    } else {
        assert(es.take(i) =~= es);
        assert(values_blob(es).take(values_blob(es).len() as int) =~= values_blob(es));
    }
}

/// The positions of word `i` are stored in the values file at the place its
/// record points to, taking the number of bytes its record gives.
pub proof fn lemma_values_at_pointer(es: Seq<EntryView>, i: int)
    requires
        0 <= i < es.len(),
    ensures
        ({
            let ptr = values_blob(es.take(i)).len();
            let len = values_bytes(es[i].1).len();
            &&& ptr + len <= values_blob(es).len()
            &&& values_blob(es).subrange(ptr as int, (ptr + len) as int) == values_bytes(es[i].1)
        }),
{
    lemma_values_blob_prefix(es, i + 1);
    assert(es.take(i + 1).drop_last() =~= es.take(i));
    let ptr = values_blob(es.take(i)).len();
    let len = values_bytes(es[i].1).len();
    let b = values_blob(es.take(i + 1));
    assert(b =~= values_blob(es.take(i)) + values_bytes(es[i].1));
    assert(values_blob(es).subrange(ptr as int, (ptr + len) as int) =~= b.subrange(ptr as int, (ptr + len) as int));
    assert(b.subrange(ptr as int, (ptr + len) as int) =~= values_bytes(es[i].1));
}

} // verus!
