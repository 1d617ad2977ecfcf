use vstd::prelude::*;

use crate::base255::{base255_value, lemma_base255_value_nonneg, lemma_base255_value_prefix};
use crate::map_latin_one::{is_latin1, latin1_bytes, to_latin1};

verus! {

/// Where the search for a word in a list file goes next.
#[derive(Debug, Clone, Copy, PartialEq, Eq, Structural)]
pub enum Flag {
    Equal,
    Left,
    Right,
}

/// The position of the first 0 byte of `s`, if it has one.
pub open spec fn first_zero(s: Seq<u8>) -> Option<nat>
    decreases s.len(),
{
    if s.len() == 0 {
        None
    } else if s[0] == 0 {
        Some(0)
    } else {
        match first_zero(s.drop_first()) {
            Some(i) => Some(i + 1),
            None => None,
        }
    }
}

/// The header of a list file: two fields, each a number written in
/// base-255 digits (each stored plus one) and ended by a 0 byte. Gives
/// (number of entries, length of an entry, length of the header), or `None`
/// when a 0 is missing or a number does not fit in a `usize`.
pub open spec fn header_spec(data: Seq<u8>) -> Option<(nat, nat, nat)> {
    match first_zero(data) {
        None => None,
        Some(i) => match first_zero(data.skip(i as int + 1)) {
            None => None,
            Some(j) => {
                let entries = base255_value(data.take(i as int));
                let entry_len = base255_value(data.subrange(i as int + 1, i as int + 1 + j as int));
                if entries <= usize::MAX && entry_len <= usize::MAX {
                    Some((entries as nat, entry_len as nat, i + j + 2))
                } else {
                    None
                }
            },
        },
    }
}

/// The `amount` bytes of `data` from position `at` on, with 0 for every
/// position past the end.
pub open spec fn window(data: Seq<u8>, at: int, amount: nat) -> Seq<u8> {
    Seq::new(amount, |k: int| if at + k < data.len() { data[at + k] } else { 0u8 })
}

/// The entry number `idx` of a list file with the given header.
pub open spec fn list_entry(data: Seq<u8>, header: (nat, nat, nat), idx: int) -> Seq<u8> {
    window(data, header.2 + header.1 * idx, header.1)
}

/// How `word` compares with `entry` from byte `k` on: the first differing
/// byte decides; when the word is a prefix, a non-zero byte right after it
/// in the entry makes the entry the larger one.
pub open spec fn compare_from(word: Seq<u8>, entry: Seq<u8>, k: int) -> Flag
    decreases word.len() - k,
{
    if k >= word.len() {
        if word.len() < entry.len() && entry[word.len() as int] != 0 {
            Flag::Left
        } else {
            Flag::Equal
        }
    } else if word[k] < entry[k] {
        Flag::Left
    } else if word[k] > entry[k] {
        Flag::Right
    } else {
        compare_from(word, entry, k + 1)
    }
}

/// How `word` compares with an entry of a list file.
pub open spec fn compare_word(word: Seq<u8>, entry: Seq<u8>) -> Flag {
    compare_from(word, entry, 0)
}

/// Whether an entry stands for `word`: it starts with the word's bytes, and
/// after them it ends or holds a 0.
pub open spec fn entry_matches(word: Seq<u8>, entry: Seq<u8>) -> bool {
    &&& word.len() <= entry.len()
    &&& entry.take(word.len() as int) == word
    &&& (word.len() == entry.len() || entry[word.len() as int] == 0)
}

/// `a` and `b` agree on their first `k` bytes.
pub open spec fn agree_upto(a: Seq<u8>, b: Seq<u8>, k: int) -> bool {
    forall|i: int| 0 <= i < k ==> a[i] == b[i]
}

/// `a` comes strictly before `b` in byte order (at some position where
/// they first differ, `a` has the smaller byte).
pub open spec fn lex_lt(a: Seq<u8>, b: Seq<u8>) -> bool {
    exists|k: int| 0 <= k < a.len() && k < b.len() && #[trigger] agree_upto(a, b, k) && a[k] < b[k]
}

/// `a` equals `b` or comes before it in byte order.
pub open spec fn lex_le(a: Seq<u8>, b: Seq<u8>) -> bool {
    a == b || lex_lt(a, b)
}

/// The entries of the list file are in ascending byte order.
pub open spec fn list_sorted(data: Seq<u8>, header: (nat, nat, nat)) -> bool {
    forall|i: int, j: int|
        0 <= i <= j < header.0 ==> lex_le(#[trigger] list_entry(data, header, i), #[trigger] list_entry(data, header, j))
}

/// The first 0 of a sequence is found where a scan from the start meets it.
pub proof fn lemma_first_zero_at(s: Seq<u8>, m: int)
    requires
        0 <= m <= s.len(),
        forall|i: int| 0 <= i < m ==> s[i] != 0,
    ensures
        m < s.len() && s[m] == 0 ==> first_zero(s) == Some(m as nat),
        m == s.len() ==> first_zero(s) is None,
    decreases m,
{
    if m > 0 {
        lemma_first_zero_at(s.drop_first(), m - 1);
    }
}

/// Reads one header field of `data` from `start` on: the number its
/// base-255 digits stand for, and the position of the 0 that ends it.
fn read_field(data: &[u8], start: usize) -> (r: Option<(usize, usize)>)
    requires
        start <= data@.len(),
    ensures
        first_zero(data@.skip(start as int)) is None ==> r is None,
        r is Some ==> first_zero(data@.skip(start as int)) is Some && r.unwrap().1 == start + first_zero(
            data@.skip(start as int),
        ).unwrap() && r.unwrap().1 < data@.len() && r.unwrap().0 == base255_value(
            data@.subrange(start as int, r.unwrap().1 as int),
        ),
        first_zero(data@.skip(start as int)) is Some ==> (r is Some <==> base255_value(
            data@.subrange(start as int, start + first_zero(data@.skip(start as int)).unwrap()),
        ) <= usize::MAX),
{
    let ghost rest = data@.skip(start as int);
    let mut k: usize = start;
    let mut value: usize = 0;
    while k < data.len() && data[k] != 0
        invariant
            start <= k <= data@.len(),
            rest == data@.skip(start as int),
            forall|i: int| start <= i < k ==> data@[i] != 0,
            value == base255_value(data@.subrange(start as int, k as int)),
        decreases data@.len() - k,
    {
        let ghost sub = data@.subrange(start as int, k + 1);
        proof {
            assert(sub.drop_last() =~= data@.subrange(start as int, k as int));
            assert(sub.last() == data@[k as int]);
        }
        let next = match value.checked_mul(255) {
            Some(m) => m.checked_add((data[k] - 1) as usize),
            None => None,
        };
        match next {
            Some(v) => {
                value = v;
            },
            None => {
                proof {
                    lemma_base255_value_nonneg(data@.subrange(start as int, k as int));
                    assert(base255_value(sub) > usize::MAX);
                    lemma_first_zero_at(rest, k + 1 - start);
                    if first_zero(rest) is Some {
                        let z = first_zero(rest).unwrap();
                        lemma_first_zero_props(rest);
                        let whole = data@.subrange(start as int, start + z);
                        assert forall|i: int| 0 <= i < whole.len() implies whole[i] != 0 by {
                            assert(whole[i] == rest[i]);
                        }
                        assert(whole.take(k + 1 - start) =~= sub);
                        lemma_base255_value_prefix(whole, k + 1 - start, whole.len() as int);
                        assert(whole.take(whole.len() as int) =~= whole);
                    }
                }
                return None;
            },
        }
        k = k + 1;
    }
    proof {
        lemma_first_zero_at(rest, k - start);
    }
    if k == data.len() {
        None
    } else {
        Some((value, k))
    }
}

/// Where the first 0 of a sequence is, every earlier byte is not 0.
proof fn lemma_first_zero_props(s: Seq<u8>)
    ensures
        first_zero(s) matches Some(z) ==> z < s.len() && s[z as int] == 0
            && forall|i: int| 0 <= i < z ==> s[i] != 0,
    decreases s.len(),
{
    if s.len() > 0 && s[0] != 0 {
        lemma_first_zero_props(s.drop_first());
        if first_zero(s) is Some {
            let z = first_zero(s).unwrap();
            assert forall|i: int| 0 <= i < z implies s[i] != 0 by {
                if i > 0 {
                    assert(s[i] == s.drop_first()[i - 1]);
                }
            }
        }
    }
}

/// Reads the header of a list file, or `None` when a field's ending 0 is
/// missing or its number does not fit in a `usize`.
pub(crate) fn read_header(data: &[u8]) -> (r: Option<(usize, usize, usize)>)
    ensures
        header_spec(data@) is None ==> r is None,
        header_spec(data@) is Some ==> r is Some && r.unwrap().0 == header_spec(data@).unwrap().0
            && r.unwrap().1 == header_spec(data@).unwrap().1
            && r.unwrap().2 == header_spec(data@).unwrap().2,
{
    assert(data@.len() == data.len());
    assert(data@.skip(0) =~= data@);
    let (entries, end1) = match read_field(data, 0) {
        None => return None,
        Some(f) => f,
    };
    assert(data@.subrange(0, end1 as int) =~= data@.take(end1 as int));
    let (entry_len, end2) = match read_field(data, end1 + 1) {
        None => return None,
        Some(f) => f,
    };
    Some((entries, entry_len, end2 + 1))
}

/// Whether the header of a list file reads: both fields end with a 0 and
/// their numbers fit in a `usize`.
pub fn header_is_readable(data: &[u8]) -> (ok: bool)
    ensures
        ok == header_spec(data@) is Some,
{
    read_header(data).is_some()
}

/// Reads the header of a list file: (number of entries, length of an entry,
/// length of the header).
pub fn get_header_info(data: &[u8]) -> (r: (usize, usize, usize))
    requires
        header_spec(data@) is Some,
    ensures
        r.0 == header_spec(data@).unwrap().0,
        r.1 == header_spec(data@).unwrap().1,
        r.2 == header_spec(data@).unwrap().2,
{
    match read_header(data) {
        Some(h) => h,
        None => (0, 0, 0),
    }
}

/// Reads exactly `amount` bytes of `data` from position `at`; positions
/// past the end read as 0.
pub fn r_exact(data: &[u8], at: usize, amount: usize) -> (bytes: Vec<u8>)
    ensures
        bytes@ == window(data@, at as int, amount as nat),
{
    let mut bytes: Vec<u8> = Vec::with_capacity(amount);
    let mut k: usize = 0;
    while k < amount
        invariant
            k <= amount,
            bytes@ =~= window(data@, at as int, amount as nat).take(k as int),
        decreases amount - k,
    {
        if at < data.len() && k < data.len() - at {
            bytes.push(data[at + k]);
        } else {
            bytes.push(0);
        }
        k = k + 1;
    }
    bytes
}

/// The entry number `idx` of a list file with header length `header_size`
/// and entry length `entry_len`.
pub(crate) fn read_entry(data: &[u8], header_size: usize, entry_len: usize, idx: usize) -> (e: Vec<u8>)
    ensures
        e@ == window(data@, header_size + entry_len * idx, entry_len as nat),
{
    let far = r_exact(&[], 0, entry_len);
    // positions past usize::MAX lie past the end of any slice
    assert(data@.len() == data.len());
    assert(data@.len() <= usize::MAX);
    match entry_len.checked_mul(idx) {
        Some(p) => match header_size.checked_add(p) {
            Some(pos) => r_exact(data, pos, entry_len),
            None => {
                assert(header_size + entry_len * idx > usize::MAX);
                assert(far@ =~= window(data@, header_size + entry_len * idx, entry_len as nat));
                far
            },
        },
        None => {
            assert(entry_len * idx > usize::MAX);
            assert(far@ =~= window(data@, header_size + entry_len * idx, entry_len as nat));
            far
        },
    }
}

/// Compares a word with an entry of a list file.
fn compare_entry(word: &[u8], entry: &[u8]) -> (flag: Flag)
    requires
        word@.len() <= entry@.len(),
    ensures
        flag == compare_word(word@, entry@),
{
    let mut i: usize = 0;
    while i < word.len()
        invariant
            i <= word@.len(),
            word@.len() <= entry@.len(),
            compare_word(word@, entry@) == compare_from(word@, entry@, i as int),
        decreases word@.len() - i,
    {
        if word[i] < entry[i] {
            return Flag::Left;
        } else if word[i] > entry[i] {
            return Flag::Right;
        }
        i = i + 1;
    }
    if word.len() < entry.len() && entry[word.len()] != 0 {
        Flag::Left
    } else {
        Flag::Equal
    }
}

/// The position where the comparison from `k` on is decided.
proof fn lemma_compare_from(w: Seq<u8>, e: Seq<u8>, k: int) -> (d: int)
    requires
        0 <= k <= w.len(),
        w.len() <= e.len(),
        agree_upto(w, e, k),
    ensures
        k <= d <= w.len(),
        agree_upto(w, e, d),
        compare_from(w, e, k) == Flag::Left ==> (d < w.len() && w[d] < e[d]) || (d == w.len() && w.len() < e.len() && e[d] != 0),
        compare_from(w, e, k) == Flag::Right ==> d < w.len() && w[d] > e[d],
        compare_from(w, e, k) == Flag::Equal <==> entry_matches(w, e),
    decreases w.len() - k,
{
    if k >= w.len() {
        assert(e.take(w.len() as int) =~= w);
        k
    } else if w[k] != e[k] {
        assert(!(e.take(w.len() as int) =~= w)) by {
            assert(e.take(w.len() as int)[k] == e[k]);
        }
        k
    } else {
        lemma_compare_from(w, e, k + 1)
    }
}

/// No sequence comes both strictly before and not after another.
pub proof fn lemma_lex_antisymmetric(a: Seq<u8>, b: Seq<u8>)
    requires
        a.len() == b.len(),
    ensures
        !(lex_lt(b, a) && lex_le(a, b)),
{
    if lex_lt(b, a) && lex_le(a, b) {
    let k0 = choose|k: int| 0 <= k < b.len() && k < a.len() && #[trigger] agree_upto(b, a, k) && b[k] < a[k];
    if a != b {
        let k1 = choose|k: int| 0 <= k < a.len() && k < b.len() && #[trigger] agree_upto(a, b, k) && a[k] < b[k];
        if k0 < k1 {
            assert(a[k0] == b[k0]);
        } else if k1 < k0 {
            assert(b[k1] == a[k1]);
        }
    }
    }
}

/// When a word is smaller than an entry, it matches no entry that is not
/// before that one.
proof fn lemma_left_excludes(w: Seq<u8>, e: Seq<u8>, f: Seq<u8>)
    requires
        w.len() <= e.len(),
        e.len() == f.len(),
        compare_word(w, e) == Flag::Left,
        lex_le(e, f),
    ensures
        !entry_matches(w, f),
{
    let d = lemma_compare_from(w, e, 0);
    if entry_matches(w, f) {
        assert forall|i: int| 0 <= i < d implies f[i] == e[i] by {
            assert(f.take(w.len() as int)[i] == f[i]);
        }
        assert(agree_upto(f, e, d));
        if d < w.len() {
            assert(f.take(w.len() as int)[d] == f[d]);
        }
        assert(f[d] < e[d]);
        assert(lex_lt(f, e));
        lemma_lex_antisymmetric(e, f);
    }
}

/// When a word is larger than an entry, it matches no entry that is not
/// after that one.
proof fn lemma_right_excludes(w: Seq<u8>, e: Seq<u8>, f: Seq<u8>)
    requires
        w.len() <= e.len(),
        e.len() == f.len(),
        compare_word(w, e) == Flag::Right,
        lex_le(f, e),
    ensures
        !entry_matches(w, f),
{
    let d = lemma_compare_from(w, e, 0);
    if entry_matches(w, f) {
        assert forall|i: int| 0 <= i < d implies e[i] == f[i] by {
            assert(f.take(w.len() as int)[i] == f[i]);
        }
        assert(agree_upto(e, f, d));
        assert(f.take(w.len() as int)[d] == f[d]);
        assert(e[d] < f[d]);
        assert(lex_lt(e, f));
        lemma_lex_antisymmetric(f, e);
    }
}

/// What the search for a word does after looking at one entry: read entry
/// `ptr` next, knowing the word can only be among entries `lo..=hi`; or stop,
/// having found it at an index or found it missing.
#[derive(Debug, Clone, Copy, PartialEq, Eq, Structural)]
pub enum SearchStep {
    Probe { lo: usize, hi: usize, ptr: usize },
    Found(usize),
    Missing,
}

/// The first step of the search in a list of `n` entries of `len` bytes for
/// a word of `wlen` bytes: none when the entries are too short for the word
/// or there are none, else the middle entry (the upper one of two).
pub open spec fn first_step(n: usize, len: usize, wlen: nat) -> SearchStep {
    if len < wlen || n == 0 {
        SearchStep::Missing
    } else {
        SearchStep::Probe { lo: 0, hi: (n - 1) as usize, ptr: (n / 2) as usize }
    }
}

/// The step after reading entry `ptr` of the entries `lo..=hi`: found when
/// it matches; else the middle of the entries on the side where the word
/// belongs (the lower one of two), or missing when that side is empty.
pub open spec fn next_step(w: Seq<u8>, lo: usize, hi: usize, ptr: usize, entry: Seq<u8>) -> SearchStep {
    match compare_word(w, entry) {
        Flag::Equal => SearchStep::Found(ptr),
        Flag::Left => if ptr == lo {
            SearchStep::Missing
        } else {
            SearchStep::Probe { lo, hi: (ptr - 1) as usize, ptr: (lo + (ptr - 1 - lo) / 2) as usize }
        },
        Flag::Right => if ptr == hi {
            SearchStep::Missing
        } else {
            SearchStep::Probe { lo: (ptr + 1) as usize, hi, ptr: (ptr + 1 + (hi - ptr - 1) / 2) as usize }
        },
    }
}

/// Starts the search for `word` (Latin-1 bytes) in a list of
/// `amount_of_entries` entries of `len_of_entry` bytes.
pub fn search_start(amount_of_entries: usize, len_of_entry: usize, word: &[u8]) -> (s: SearchStep)
    ensures
        s == first_step(amount_of_entries, len_of_entry, word@.len()),
{
    if len_of_entry < word.len() || amount_of_entries == 0 {
        SearchStep::Missing
    } else {
        SearchStep::Probe { lo: 0, hi: amount_of_entries - 1, ptr: amount_of_entries / 2 }
    }
}

/// One step of the search for `word`: `entry` is the entry at `ptr`, the
/// word being known to lie among entries `lo..=hi` if anywhere.
pub fn search_step(word: &[u8], lo: usize, hi: usize, ptr: usize, entry: &[u8]) -> (s: SearchStep)
    requires
        lo <= ptr <= hi,
        word@.len() <= entry@.len(),
    ensures
        s == next_step(word@, lo, hi, ptr, entry@),
{
    match compare_entry(word, entry) {
        Flag::Equal => SearchStep::Found(ptr),
        Flag::Left => if ptr == lo {
            SearchStep::Missing
        } else {
            let hi2 = ptr - 1;
            SearchStep::Probe { lo, hi: hi2, ptr: lo + (hi2 - lo) / 2 }
        },
        Flag::Right => if ptr == hi {
            SearchStep::Missing
        } else {
            let lo2 = ptr + 1;
            SearchStep::Probe { lo: lo2, hi, ptr: lo2 + (hi - lo2) / 2 }
        },
    }
}

/// The binary search over the entries `lo..=hi`, probing entry `ptr` first:
/// the index it settles on (if any) and how many entries it reads. After an
/// entry that the word comes before, it goes on with the entries before it,
/// probing their middle (the lower one of two); after one that the word
/// comes after, with the entries after it.
pub open spec fn probe(data: Seq<u8>, h: (nat, nat, nat), w: Seq<u8>, lo: int, hi: int, ptr: int) -> (Option<int>, nat)
    decreases hi - lo,
{
    if !(0 <= lo <= ptr <= hi) {
        (None, 0)
    } else {
        match compare_word(w, list_entry(data, h, ptr)) {
            Flag::Equal => (Some(ptr), 1),
            Flag::Left => if ptr == lo {
                (None, 1)
            } else {
                let r = probe(data, h, w, lo, ptr - 1, lo + (ptr - 1 - lo) / 2);
                (r.0, r.1 + 1)
            },
            Flag::Right => if ptr == hi {
                (None, 1)
            } else {
                let r = probe(data, h, w, ptr + 1, hi, ptr + 1 + (hi - ptr - 1) / 2);
                (r.0, r.1 + 1)
            },
        }
    }
}

/// The search that `get_index_file_nr` makes: `None` without reading any
/// entry when the word is not Latin-1, the header does not read, the entries
/// are shorter than the word or there are none; otherwise the binary search
/// over all entries, starting at entry `n / 2`.
pub open spec fn search_spec(data: Seq<u8>, word: Seq<char>) -> (Option<int>, nat) {
    if !is_latin1(word) {
        (None, 0)
    } else {
        match header_spec(data) {
            None => (None, 0),
            Some(h) => if h.1 < word.len() || h.0 == 0 {
                (None, 0)
            } else {
                probe(data, h, latin1_bytes(word), 0, h.0 - 1, (h.0 / 2) as int)
            },
        }
    }
}

/// Each step of the search reads one entry and goes on as the modelled
/// search does: from entries `lo..=hi` with `ptr` probed first, the search
/// settles where the search from the next step settles, reading one entry
/// more (or stops right after that entry).
pub proof fn lemma_step_follows_probe(
    data: Seq<u8>,
    h: (nat, nat, nat),
    w: Seq<u8>,
    lo: usize,
    hi: usize,
    ptr: usize,
)
    requires
        lo <= ptr <= hi,
    ensures
        ({
            let m = probe(data, h, w, lo as int, hi as int, ptr as int);
            match next_step(w, lo, hi, ptr, list_entry(data, h, ptr as int)) {
                SearchStep::Found(i) => m == (Some(i as int), 1nat),
                SearchStep::Missing => m == (None::<int>, 1nat),
                SearchStep::Probe { lo: l, hi: u, ptr: p } => {
                    let r = probe(data, h, w, l as int, u as int, p as int);
                    &&& l <= p <= u
                    &&& lo <= l
                    &&& u <= hi
                    &&& m == (r.0, r.1 + 1)
                },
            }
        }),
{
}

/// The search starts as modelled: for a Latin-1 word and a list file whose
/// header reads, the first step never finds anything by itself, a missing
/// first step means the modelled search reads nothing and finds nothing,
/// and a first probe starts the modelled search.
pub proof fn lemma_first_step_starts_search(data: Seq<u8>, word: Seq<char>)
    requires
        is_latin1(word),
        header_spec(data) is Some,
    ensures
        ({
            let h = header_spec(data).unwrap();
            let s = first_step(h.0 as usize, h.1 as usize, latin1_bytes(word).len());
            &&& s !is Found
            &&& s is Missing ==> search_spec(data, word) == (None::<int>, 0nat)
            &&& s matches SearchStep::Probe { lo, hi, ptr } ==> {
                &&& lo <= ptr <= hi < h.0
                &&& search_spec(data, word) == probe(data, h, latin1_bytes(word), lo as int, hi as int, ptr as int)
            }
        }),
{
    let h = header_spec(data).unwrap();
    let i = first_zero(data).unwrap();
    let rest = data.skip(i as int + 1);
    let j = first_zero(rest).unwrap();
    lemma_first_zero_props(data);
    lemma_first_zero_props(rest);
    let a = data.take(i as int);
    let b = data.subrange(i as int + 1, i as int + 1 + j as int);
    assert forall|k: int| 0 <= k < a.len() implies a[k] != 0 by {
        assert(a[k] == data[k]);
    }
    assert forall|k: int| 0 <= k < b.len() implies b[k] != 0 by {
        assert(b[k] == rest[k]);
    }
    lemma_base255_value_nonneg(a);
    lemma_base255_value_nonneg(b);
    assert(h.0 <= usize::MAX && h.1 <= usize::MAX);
    assert(latin1_bytes(word).len() == word.len());
}

/// `log2(n)` rounded down (0 for 0 and 1).
pub open spec fn log2_floor(n: nat) -> nat
    decreases n,
{
    if n <= 1 {
        0
    } else {
        1 + log2_floor(n / 2)
    }
}

/// `log2_floor` never decreases.
proof fn lemma_log2_floor_monotone(a: nat, b: nat)
    requires
        a <= b,
    ensures
        log2_floor(a) <= log2_floor(b),
    decreases b,
{
    if a > 1 {
        lemma_log2_floor_monotone(a / 2, b / 2);
    }
}

/// A search over `size` entries that starts near their middle reads at most
/// `log2(size) + 1` of them.
proof fn lemma_probe_bound(data: Seq<u8>, h: (nat, nat, nat), w: Seq<u8>, lo: int, hi: int, ptr: int)
    requires
        0 <= lo <= ptr <= hi,
        ptr - lo <= (hi - lo + 1) / 2,
        hi - ptr <= (hi - lo + 1) / 2,
    ensures
        probe(data, h, w, lo, hi, ptr).1 <= log2_floor((hi - lo + 1) as nat) + 1,
    decreases hi - lo,
{
    let size = (hi - lo + 1) as nat;
    match compare_word(w, list_entry(data, h, ptr)) {
        Flag::Equal => {},
        Flag::Left => {
            if ptr > lo {
                let s2 = (ptr - lo) as nat;
                lemma_probe_bound(data, h, w, lo, ptr - 1, lo + (ptr - 1 - lo) / 2);
                assert(size >= 2);
                lemma_log2_floor_monotone(s2, size / 2);
            }
        },
        Flag::Right => {
            if ptr < hi {
                let s2 = (hi - ptr) as nat;
                lemma_probe_bound(data, h, w, ptr + 1, hi, ptr + 1 + (hi - ptr - 1) / 2);
                assert(size >= 2);
                lemma_log2_floor_monotone(s2, size / 2);
            }
        },
    }
}

/// The search reads at most `log2(n) + 1` of the `n` entries.
pub proof fn lemma_search_reads_few_entries(data: Seq<u8>, word: Seq<char>)
    ensures
        header_spec(data) is Some ==> search_spec(data, word).1 <= log2_floor(header_spec(data).unwrap().0) + 1,
{
    if is_latin1(word) && header_spec(data) is Some {
        let h = header_spec(data).unwrap();
        if h.1 >= word.len() && h.0 > 0 {
            lemma_probe_bound(data, h, latin1_bytes(word), 0, h.0 - 1, (h.0 / 2) as int);
        }
    }
}

/// Looks `word` up in a list file by binary search over its entries.
///
/// A returned index always names an entry that stands for the word's
/// Latin-1 bytes; when the header reads and the entries are in ascending
/// byte order, `None` for a Latin-1 word means that no entry stands for it.
/// It runs `search_start` and then `search_step` on one entry per step, so
/// it settles as `search_spec` does and reads the entries that search reads,
/// at most `log2(n) + 1` of the `n` entries.
pub fn get_index_file_nr(list_file: &[u8], word: &str) -> (r: Option<usize>)
    ensures
        r is Some <==> search_spec(list_file@, word@).0 is Some,
        r is Some ==> r.unwrap() == search_spec(list_file@, word@).0.unwrap(),
        header_spec(list_file@) is Some ==> search_spec(list_file@, word@).1 <= log2_floor(
            header_spec(list_file@).unwrap().0,
        ) + 1,
        r is Some ==> header_spec(list_file@) is Some && is_latin1(word@)
            && r.unwrap() < header_spec(list_file@).unwrap().0
            && entry_matches(
                latin1_bytes(word@),
                list_entry(list_file@, header_spec(list_file@).unwrap(), r.unwrap() as int),
            ),
        r is None && header_spec(list_file@) is Some && is_latin1(word@) && list_sorted(
            list_file@,
            header_spec(list_file@).unwrap(),
        ) ==> forall|j: int|
            0 <= j < header_spec(list_file@).unwrap().0 ==> !entry_matches(
                latin1_bytes(word@),
                #[trigger] list_entry(list_file@, header_spec(list_file@).unwrap(), j),
            ),
{
    proof {
        lemma_search_reads_few_entries(list_file@, word@);
    }
    let w = match to_latin1(word) {
        Some(bytes) => bytes,
        None => return None,
    };
    let ghost data = list_file@;
    let (amount_of_entries, len_of_entry, header_size) = match read_header(list_file) {
        Some(t) => t,
        None => return None,
    };
    let ghost h = header_spec(data).unwrap();
    assert(h == (amount_of_entries as nat, len_of_entry as nat, header_size as nat));
    proof {
        lemma_first_step_starts_search(data, word@);
    }
    let (mut lo, mut hi, mut ptr) = match search_start(amount_of_entries, len_of_entry, w.as_slice()) {
        SearchStep::Probe { lo, hi, ptr } => (lo, hi, ptr),
        _ => return None,
    };
    // the number of entries read so far
    let ghost mut reads: nat = 0;
    loop
        invariant
            w@ == latin1_bytes(word@),
            is_latin1(word@),
            data == list_file@,
            h == (amount_of_entries as nat, len_of_entry as nat, header_size as nat),
            h == header_spec(list_file@).unwrap(),
            header_spec(list_file@) is Some,
            w@.len() <= len_of_entry,
            lo <= ptr <= hi < amount_of_entries,
            search_spec(data, word@).0 == probe(data, h, w@, lo as int, hi as int, ptr as int).0,
            search_spec(data, word@).1 <= log2_floor(h.0) + 1,
            reads + probe(data, h, w@, lo as int, hi as int, ptr as int).1 == search_spec(data, word@).1,
            list_sorted(data, h) ==> forall|j: int|
                (0 <= j < lo || hi < j < amount_of_entries) ==> !entry_matches(w@, #[trigger] list_entry(data, h, j)),
        decreases hi - lo,
    {
        let cur = read_entry(list_file, header_size, len_of_entry, ptr);
        proof {
            reads = reads + 1;
        }
        assert(cur@ == list_entry(data, h, ptr as int));
        let ghost flag = compare_word(w@, cur@);
        proof {
            lemma_compare_from(w@, cur@, 0);
            lemma_step_follows_probe(data, h, w@, lo, hi, ptr);
            if list_sorted(data, h) && flag == Flag::Left {
                assert forall|j: int| ptr <= j < amount_of_entries implies
                    !entry_matches(w@, #[trigger] list_entry(data, h, j)) by {
                    assert(lex_le(list_entry(data, h, ptr as int), list_entry(data, h, j)));
                    lemma_left_excludes(w@, cur@, list_entry(data, h, j));
                }
            }
            if list_sorted(data, h) && flag == Flag::Right {
                assert forall|j: int| 0 <= j <= ptr implies
                    !entry_matches(w@, #[trigger] list_entry(data, h, j)) by {
                    assert(lex_le(list_entry(data, h, j), list_entry(data, h, ptr as int)));
                    lemma_right_excludes(w@, cur@, list_entry(data, h, j));
                }
            }
        }
        match search_step(w.as_slice(), lo, hi, ptr, cur.as_slice()) {
            SearchStep::Found(i) => {
                assert(reads == search_spec(data, word@).1);
                return Some(i);
            },
            SearchStep::Missing => {
                assert(reads == search_spec(data, word@).1);
                return None;
            },
            SearchStep::Probe { lo: l, hi: u, ptr: p } => {
                lo = l;
                hi = u;
                ptr = p;
            },
        }
    }
}

} // verus!
