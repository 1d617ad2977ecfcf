use vstd::prelude::*;

use crate::hash_func::{lazy_hash, spec_lazy_hash};
use crate::map_latin_one::{
    is_latin1, lemma_token_to_latin_is_latin1, map_from_token_to_latin, token_to_latin,
};
use crate::text::char_count;
use crate::text::{
    first_space, parse_usize, parse_usize_spec, split_at_first_space, trim_chars, trim_str,
};

verus! {

/// Why a line of the token list could not be taken in.
#[derive(Debug, Clone, Copy, PartialEq, Eq, Structural)]
pub enum TokenError {
    /// The line holds no space between the word and its position.
    MissingSeparator,
    /// The text after the first space is not a number.
    BadPosition,
    /// The word repeats the previous one, but no entry exists to add the
    /// position to (only possible for an empty word on the first line).
    NoEntryForPosition,
}

/// A word of the index with every position at which it occurs.
pub struct Entry {
    pub key: String,
    pub values: Vec<usize>,
}

/// The words that share one hash value, in the order they were first seen,
/// with the number of characters of the longest of them.
pub struct Bucket {
    pub longest_key_len: usize,
    pub entries: Vec<Entry>,
}

/// The table that the token list is read into: bucket `h` holds the words
/// whose `lazy_hash` is `h`. `last_key` is the word of the previous line.
pub struct TokenTable {
    pub buckets: Vec<Bucket>,
    pub last_key: String,
}

/// Abstract value of an entry: its word and its positions.
pub type EntryView = (Seq<char>, Seq<usize>);

/// Abstract value of a bucket: the longest word's character count and the entries.
pub type BucketView = (nat, Seq<EntryView>);

impl View for Entry {
    type V = EntryView;

    open spec fn view(&self) -> EntryView {
        (self.key@, self.values@)
    }
}

impl View for Bucket {
    type V = BucketView;

    open spec fn view(&self) -> BucketView {
        (self.longest_key_len as nat, self.entries@.map_values(|e: Entry| e@))
    }
}

impl View for TokenTable {
    type V = (Seq<BucketView>, Seq<char>);

    open spec fn view(&self) -> (Seq<BucketView>, Seq<char>) {
        (self.buckets@.map_values(|b: Bucket| b@), self.last_key@)
    }
}

/// A bucket with no words.
pub open spec fn empty_bucket() -> BucketView {
    (0, Seq::empty())
}

/// The table grown with empty buckets so that index `h` exists.
pub open spec fn grown(t: Seq<BucketView>, h: nat) -> Seq<BucketView> {
    if h < t.len() {
        t
    } else {
        t + Seq::new((h + 1 - t.len()) as nat, |i: int| empty_bucket())
    }
}

/// The bucket after a line with word `key` that follows a line with word
/// `prev`: a new word gets a new entry (with no positions yet) and may raise
/// the longest length.
pub open spec fn with_key(b: BucketView, prev: Seq<char>, key: Seq<char>) -> BucketView {
    if prev != key {
        (
            if b.0 < key.len() { key.len() } else { b.0 },
            b.1.push((key, Seq::empty())),
        )
    } else {
        b
    }
}

/// The bucket with `v` appended to the positions of its last entry.
pub open spec fn with_value(b: BucketView, v: usize) -> BucketView {
    let last = b.1.last();
    (b.0, b.1.update(b.1.len() - 1, (last.0, last.1.push(v))))
}

/// Whether a line with word `key` can be taken in after a line with word
/// `prev`: there is an entry to add its position to (a new word gets one; a
/// repeated word has the previous line's).
pub open spec fn token_accepted(t: Seq<BucketView>, prev: Seq<char>, key: Seq<char>) -> bool {
    let h = spec_lazy_hash(key);
    with_key(grown(t, h)[h as int], prev, key).1.len() > 0
}

/// The table after taking in a line with word `key` and position `v`, the
/// previous line's word being `prev`; `None` when there is no entry to add
/// the position to.
pub open spec fn add_token_spec(t: Seq<BucketView>, prev: Seq<char>, key: Seq<char>, v: usize) -> Option<Seq<BucketView>> {
    let h = spec_lazy_hash(key);
    let t1 = grown(t, h);
    let b = with_key(t1[h as int], prev, key);
    if !token_accepted(t, prev, key) {
        None
    } else {
        Some(t1.update(h as int, with_value(b, v)))
    }
}

/// What a line of the token list says: the word (trimmed and mapped to the
/// index's alphabet) before the first space, and the position after it.
pub open spec fn token_line_spec(line: Seq<char>) -> Result<(Seq<char>, usize), TokenError> {
    match first_space(line) {
        None => Err(TokenError::MissingSeparator),
        Some(i) => {
            let key = token_to_latin(vstd::utf8::encode_utf8(trim_chars(line.take(i as int))));
            match parse_usize_spec(trim_chars(line.skip(i as int + 1))) {
                None => Err(TokenError::BadPosition),
                Some(v) => Ok((key, v)),
            }
        },
    }
}

/// The table (and the last word) after taking in the given lines one by
/// one from an empty table, or the error of the first line that is refused.
pub open spec fn table_after(lines: Seq<Seq<char>>) -> Result<(Seq<BucketView>, Seq<char>), TokenError>
    decreases lines.len(),
{
    if lines.len() == 0 {
        Ok((Seq::empty(), Seq::empty()))
    } else {
        match table_after(lines.drop_last()) {
            Err(e) => Err(e),
            Ok((t, prev)) => match token_line_spec(lines.last()) {
                Err(e) => Err(e),
                Ok((key, v)) => match add_token_spec(t, prev, key, v) {
                    None => Err(TokenError::NoEntryForPosition),
                    Some(t2) => Ok((t2, key)),
                },
            },
        }
    }
}

/// The invariant of a table built from the token list:
/// every word sits in the bucket of its hash and is made of Latin-1
/// characters, each bucket's recorded length is the number of characters of
/// its longest word (0 when empty), every entry has at least one position,
/// and a non-empty previous word is the last entry of its bucket.
pub open spec fn table_wf(t: Seq<BucketView>, prev: Seq<char>) -> bool {
    &&& forall|h: int, j: int|
        0 <= h < t.len() && 0 <= j < t[h].1.len() ==> spec_lazy_hash(#[trigger] t[h].1[j].0) == h
    &&& forall|h: int, j: int|
        0 <= h < t.len() && 0 <= j < t[h].1.len() ==> (#[trigger] t[h].1[j]).0.len() <= t[h].0
    &&& forall|h: int|
        0 <= h < t.len() ==> (#[trigger] t[h].1.len() == 0 ==> t[h].0 == 0)
    &&& forall|h: int|
        0 <= h < t.len() && #[trigger] t[h].1.len() > 0 ==> exists|j: int|
            0 <= j < t[h].1.len() && (#[trigger] t[h].1[j]).0.len() == t[h].0
    &&& forall|h: int, j: int|
        0 <= h < t.len() && 0 <= j < t[h].1.len() ==> (#[trigger] t[h].1[j]).1.len() > 0
    &&& forall|h: int, j: int|
        0 <= h < t.len() && 0 <= j < t[h].1.len() ==> is_latin1((#[trigger] t[h].1[j]).0)
    &&& prev.len() > 0 ==> {
        let h = spec_lazy_hash(prev);
        &&& h < t.len()
        &&& t[h as int].1.len() > 0
        &&& t[h as int].1.last().0 == prev
    }
}

/// Whether a line of the token list reads: it has a space, and the text
/// after the first space (trimmed) is a decimal number that fits in a
/// `usize`.
pub fn token_line_ok(line: &str) -> (ok: bool)
    ensures
        ok == token_line_spec(line@) is Ok,
{
    match split_at_first_space(line) {
        None => false,
        Some((_, position)) => parse_usize(trim_str(position)).is_some(),
    }
}

/// Splits a line of the token list into its word, mapped to the index's
/// alphabet, and its position.
pub fn parse_token_line(line: &str) -> (r: (String, usize))
    requires
        token_line_spec(line@) is Ok,
    ensures
        r.0@ == token_line_spec(line@)->Ok_0.0,
        r.1 == token_line_spec(line@)->Ok_0.1,
        is_latin1(r.0@),
{
    proof {
        let i = first_space(line@).unwrap();
        lemma_token_to_latin_is_latin1(vstd::utf8::encode_utf8(trim_chars(line@.take(i as int))));
    }
    match split_at_first_space(line) {
        None => (String::new(), 0),
        Some((word, position)) => {
            let key = map_from_token_to_latin(trim_str(word));
            match parse_usize(trim_str(position)) {
                None => (key, 0),
                Some(v) => (key, v),
            }
        },
    }
}

impl TokenTable {
    /// The invariant of a table built from the token list.
    pub open spec fn wf(&self) -> bool {
        table_wf(self@.0, self@.1)
    }

    /// An empty table, before the first line.
    pub fn new() -> (t: TokenTable)
        ensures
            t@.0 == Seq::<BucketView>::empty(),
            t@.1 == Seq::<char>::empty(),
            t.wf(),
    {
        TokenTable { buckets: Vec::new(), last_key: String::new() }
    }

    /// Takes in one line of the token list, already split into its word
    /// `key` and position `value`.
    pub fn add_token(&mut self, key: String, value: usize)
        requires
            token_accepted(old(self)@.0, old(self)@.1, key@),
        ensures
            final(self)@.0 == add_token_spec(old(self)@.0, old(self)@.1, key@, value).unwrap(),
            final(self)@.1 == key@,
            old(self).wf() && is_latin1(key@) ==> final(self).wf(),
    {
        proof {
            if old(self).wf() && is_latin1(key@) {
                lemma_add_token_wf(old(self)@.0, old(self)@.1, key@, value);
            }
        }
        let h = lazy_hash(key.as_str());
        let is_new = !(self.last_key == key);
        let ghost t0 = self@.0;
        let ghost g = grown(t0, h as nat);
        assert(g.take(t0.len() as int) =~= t0);
        while self.buckets.len() <= h
            invariant
                h <= 0x10FFFF * 307,
                g == grown(t0, h as nat),
                t0.len() <= self@.0.len() <= g.len(),
                self@.0 == g.take(self@.0.len() as int),
            decreases h + 1 - self.buckets@.len(),
        {
            let ghost before = self@.0;
            self.buckets.push(Bucket { longest_key_len: 0, entries: Vec::new() });
            proof {
                let nb = self.buckets@.last();
                assert(nb@.1 =~= Seq::<EntryView>::empty());
                assert(self@.0 =~= before.push(empty_bucket()));
                assert(g[before.len() as int] == empty_bucket());
                assert(self@.0 =~= g.take(self@.0.len() as int));
            }
        }
        assert(self@.0 =~= g);
        let ghost t1 = self@.0;
        let ghost b1 = with_key(g[h as int], old(self)@.1, key@);
        if is_new {
            let klen = char_count(key.as_str());
            let entry_key = key.clone();
            self.buckets[h].entries.push(Entry { key: entry_key, values: Vec::new() });
            if self.buckets[h].longest_key_len < klen {
                self.buckets[h].longest_key_len = klen;
            }
            proof {
                assert(self.buckets@[h as int]@.1 =~= t1[h as int].1.push((key@, Seq::empty())));
                assert(self.buckets@[h as int]@ == b1);
                assert(self@.0 =~= t1.update(h as int, b1));
            }
        } else {
            assert(self@.0 =~= t1.update(h as int, b1));
        }
        let ghost t2 = self@.0;
        let last = self.buckets[h].entries.len() - 1;
        self.buckets[h].entries[last].values.push(value);
        proof {
            assert(self.buckets@[h as int]@.1 =~= b1.1.update(last as int, (b1.1.last().0, b1.1.last().1.push(value))));
            assert(self@.0 =~= t2.update(h as int, with_value(b1, value)));
            assert(self@.0 =~= g.update(h as int, with_value(b1, value)));
        }
        self.last_key = key;
    }

    /// Whether a line with word `key` can be taken in next (see
    /// `token_accepted`).
    pub fn accepts(&self, key: &String) -> (ok: bool)
        ensures
            ok == token_accepted(self@.0, self@.1, key@),
    {
        let h = lazy_hash(key.as_str());
        if !(self.last_key == *key) {
            return true;
        }
        let ghost t = self@.0;
        let ghost g = grown(t, h as nat);
        if h < self.buckets.len() {
            assert(g[h as int] == self.buckets@[h as int]@);
            self.buckets[h].entries.len() > 0
        } else {
            assert(g[h as int] == empty_bucket());
            false
        }
    }

    /// Reads the lines of the token list into a table.
    pub fn read_token_file(lines: &Vec<String>) -> (r: TokenTable)
        requires
            table_after(lines@.map_values(|l: String| l@)) is Ok,
        ensures
            r@.0 == table_after(lines@.map_values(|l: String| l@))->Ok_0.0,
            r@.1 == table_after(lines@.map_values(|l: String| l@))->Ok_0.1,
            r.wf(),
    {
        let ghost all = lines@.map_values(|l: String| l@);
        let mut table = TokenTable::new();
        let mut i: usize = 0;
        while i < lines.len()
            invariant
                i <= lines@.len(),
                all == lines@.map_values(|l: String| l@),
                table_after(all.take(i as int)) == Ok::<(Seq<BucketView>, Seq<char>), TokenError>(
                    (table@.0, table@.1),
                ),
                table.wf(),
                table_after(all) is Ok,
            decreases lines@.len() - i,
        {
            proof {
                assert(all.take(i + 1).drop_last() =~= all.take(i as int));
                assert(all.take(i + 1).last() == lines@[i as int]@);
                lemma_table_after_err(all, i + 1);
                assert(table_after(all.take(i + 1)) is Ok);
                assert(token_line_spec(lines@[i as int]@) is Ok);
                let kv = token_line_spec(lines@[i as int]@)->Ok_0;
                assert(add_token_spec(table@.0, table@.1, kv.0, kv.1) is Some);
            }
            table.add_line(lines[i].as_str());
            i = i + 1;
        }
        assert(all.take(lines@.len() as int) =~= all);
        table
    }

    /// Whether every line of the token list can be taken in, one after the
    /// other from an empty table.
    pub fn token_file_ok(lines: &Vec<String>) -> (ok: bool)
        ensures
            ok == table_after(lines@.map_values(|l: String| l@)) is Ok,
    {
        let ghost all = lines@.map_values(|l: String| l@);
        let mut table = TokenTable::new();
        let mut i: usize = 0;
        while i < lines.len()
            invariant
                i <= lines@.len(),
                all == lines@.map_values(|l: String| l@),
                table_after(all.take(i as int)) == Ok::<(Seq<BucketView>, Seq<char>), TokenError>(
                    (table@.0, table@.1),
                ),
            decreases lines@.len() - i,
        {
            proof {
                assert(all.take(i + 1).drop_last() =~= all.take(i as int));
                assert(all.take(i + 1).last() == lines@[i as int]@);
                lemma_table_after_err(all, i + 1);
            }
            let line = lines[i].as_str();
            if !token_line_ok(line) {
                return false;
            }
            let (key, value) = parse_token_line(line);
            if !table.accepts(&key) {
                return false;
            }
            table.add_token(key, value);
            i = i + 1;
        }
        assert(all.take(lines@.len() as int) =~= all);
        true
    }

    /// Takes in one line of the token list: the word before the first space
    /// (trimmed, mapped with `map_from_token_to_latin`) and the decimal
    /// position after it (trimmed).
    pub fn add_line(&mut self, line: &str)
        requires
            token_line_spec(line@) is Ok,
            token_accepted(old(self)@.0, old(self)@.1, token_line_spec(line@)->Ok_0.0),
        ensures
            final(self)@.0 == add_token_spec(
                old(self)@.0,
                old(self)@.1,
                token_line_spec(line@)->Ok_0.0,
                token_line_spec(line@)->Ok_0.1,
            ).unwrap(),
            final(self)@.1 == token_line_spec(line@)->Ok_0.0,
            old(self).wf() ==> final(self).wf(),
    {
        let (key, value) = parse_token_line(line);
        self.add_token(key, value);
    }
}

} // verus!

verus! {

/// Growing a table with empty buckets keeps its invariant.
proof fn lemma_grown_wf(t: Seq<BucketView>, prev: Seq<char>, h: nat)
    requires
        table_wf(t, prev),
    ensures
        table_wf(grown(t, h), prev),
        grown(t, h).len() > h,
        forall|i: int| 0 <= i < t.len() ==> #[trigger] grown(t, h)[i] == t[i],
        forall|i: int| t.len() <= i < grown(t, h).len() ==> #[trigger] grown(t, h)[i] == empty_bucket(),
{
    let g = grown(t, h);
    assert forall|i: int| 0 <= i < t.len() implies #[trigger] g[i] == t[i] by {}
    assert forall|i: int| t.len() <= i < g.len() implies #[trigger] g[i] == empty_bucket() by {}
    assert forall|i: int, j: int| 0 <= i < g.len() && 0 <= j < g[i].1.len() implies
        spec_lazy_hash(#[trigger] g[i].1[j].0) == i by {
        assert(g[i] == t[i]);
    }
    assert forall|i: int, j: int| 0 <= i < g.len() && 0 <= j < g[i].1.len() implies
        (#[trigger] g[i].1[j]).0.len() <= g[i].0 by {
        assert(g[i] == t[i]);
    }
    assert forall|i: int| 0 <= i < g.len() && #[trigger] g[i].1.len() > 0 implies exists|j: int|
        0 <= j < g[i].1.len() && (#[trigger] g[i].1[j]).0.len() == g[i].0 by {
        assert(g[i] == t[i]);
    }
    assert forall|i: int, j: int| 0 <= i < g.len() && 0 <= j < g[i].1.len() implies
        (#[trigger] g[i].1[j]).1.len() > 0 by {
        assert(g[i] == t[i]);
    }
    assert forall|i: int| 0 <= i < g.len() && #[trigger] g[i].1.len() == 0 implies g[i].0 == 0 by {
        if i < t.len() {
            assert(g[i] == t[i]);
        }
    }
}

/// Every line with a non-empty word is taken in by a table that keeps its
/// invariant, and the invariant holds after every line that is taken in.
pub proof fn lemma_add_token_wf(t: Seq<BucketView>, prev: Seq<char>, key: Seq<char>, v: usize)
    requires
        table_wf(t, prev),
        is_latin1(key),
    ensures
        key.len() > 0 ==> add_token_spec(t, prev, key, v) is Some,
        add_token_spec(t, prev, key, v) matches Some(t2) ==> table_wf(t2, key),
{
    let h = spec_lazy_hash(key);
    lemma_grown_wf(t, prev, h);
    let g = grown(t, h);
    let ob = g[h as int];
    let b = with_key(ob, prev, key);
    if b.1.len() > 0 {
        let nb = with_value(b, v);
        let t2 = g.update(h as int, nb);
        assert(nb.1.len() == b.1.len());
        // entries of the new bucket
        assert forall|j: int| 0 <= j < nb.1.len() implies
            spec_lazy_hash(#[trigger] nb.1[j].0) == h && nb.1[j].0.len() <= nb.0
                && nb.1[j].1.len() > 0 by {
            if j < ob.1.len() {
                assert(b.1[j] == ob.1[j]);
                assert(nb.1[j].0 == ob.1[j].0);
                if j != nb.1.len() - 1 {
                    assert(nb.1[j] == ob.1[j]);
                }
            }
        }
        assert(exists|j: int| 0 <= j < nb.1.len() && (#[trigger] nb.1[j]).0.len() == nb.0) by {
            if prev != key && ob.0 < key.len() {
                assert(nb.1[nb.1.len() - 1].0.len() == nb.0);
            } else if ob.1.len() > 0 {
                let j0 = choose|j: int| 0 <= j < ob.1.len() && (#[trigger] ob.1[j]).0.len() == ob.0;
                assert(nb.1[j0].0 == ob.1[j0].0);
                assert(nb.1[j0].0.len() == nb.0);
            } else {
                assert(nb.1[nb.1.len() - 1].0.len() == nb.0);
            }
        }
        assert forall|i: int, j: int| 0 <= i < t2.len() && 0 <= j < t2[i].1.len() implies
            spec_lazy_hash(#[trigger] t2[i].1[j].0) == i by {
            if i == h {
                assert(t2[i] == nb);
            } else {
                assert(t2[i] == g[i]);
            }
        }
        assert forall|i: int, j: int| 0 <= i < t2.len() && 0 <= j < t2[i].1.len() implies
            (#[trigger] t2[i].1[j]).0.len() <= t2[i].0 by {
            if i == h {
                assert(t2[i] == nb);
            } else {
                assert(t2[i] == g[i]);
            }
        }
        assert forall|i: int| 0 <= i < t2.len() && #[trigger] t2[i].1.len() > 0 implies exists|j: int|
            0 <= j < t2[i].1.len() && (#[trigger] t2[i].1[j]).0.len() == t2[i].0 by {
            if i == h {
                assert(t2[i] == nb);
            } else {
                assert(t2[i] == g[i]);
            }
        }
        assert forall|i: int, j: int| 0 <= i < t2.len() && 0 <= j < t2[i].1.len() implies
            (#[trigger] t2[i].1[j]).1.len() > 0 by {
            if i == h {
                assert(t2[i] == nb);
            } else {
                assert(t2[i] == g[i]);
            }
        }
        assert forall|i: int| 0 <= i < t2.len() && #[trigger] t2[i].1.len() == 0 implies t2[i].0 == 0 by {
            if i == h {
                assert(t2[i] == nb);
            } else {
                assert(t2[i] == g[i]);
            }
        }
        if key.len() > 0 {
            assert(t2[h as int] == nb);
            assert(nb.1.last().0 == b.1.last().0);
        }
    } else {
        if key.len() > 0 {
            assert(prev == key);
            assert(g[h as int] == t[h as int]);
        }
    }
}

/// Taking in a line adds its position at the end of its word's entry and
/// changes nothing else. With `old` the entries of the word's bucket before
/// (none when that bucket did not exist yet): a line repeating the previous
/// word makes the last entry's positions one longer, ending with the new
/// position (in a table built from the token list that entry is the
/// word's), and leaves the other entries; a line with a new word adds an
/// entry holding just that position. Every other bucket is unchanged, and
/// the buckets added to reach the word's bucket are empty.
pub proof fn lemma_add_token_appends(t: Seq<BucketView>, prev: Seq<char>, key: Seq<char>, v: usize)
    requires
        token_accepted(t, prev, key),
    ensures
        ({
            let t2 = add_token_spec(t, prev, key, v).unwrap();
            let h = spec_lazy_hash(key) as int;
            let old = if h < t.len() { t[h].1 } else { Seq::<EntryView>::empty() };
            &&& t2.len() == (if h < t.len() { t.len() as int } else { h + 1 })
            &&& forall|g: int|
                0 <= g < t2.len() && g != h ==> #[trigger] t2[g] == (if g < t.len() {
                    t[g]
                } else {
                    (0nat, Seq::<EntryView>::empty())
                })
            &&& prev == key ==> {
                &&& old.len() > 0
                &&& t2[h].1.len() == old.len()
                &&& t2[h].1.drop_last() == old.drop_last()
                &&& t2[h].1.last() == (old.last().0, old.last().1.push(v))
            }
            &&& prev != key ==> t2[h].1 == old.push((key, seq![v]))
        }),
{
    let h = spec_lazy_hash(key);
    let g = grown(t, h);
    let ob = g[h as int];
    let b = with_key(ob, prev, key);
    let t2 = add_token_spec(t, prev, key, v).unwrap();
    assert(t2 == g.update(h as int, with_value(b, v)));
    let old = if (h as int) < t.len() { t[h as int].1 } else { Seq::<EntryView>::empty() };
    assert(ob.1 == old);
    assert forall|k: int| 0 <= k < t2.len() && k != h implies #[trigger] t2[k] == (if k < t.len() {
        t[k]
    } else {
        (0nat, Seq::<EntryView>::empty())
    }) by {
        assert(t2[k] == g[k]);
    }
    assert(t2.len() == g.len());
    assert(t2.len() == (if (h as int) < t.len() { t.len() as int } else { h + 1int }));
    if prev == key {
        assert(b == ob);
        assert(old.len() > 0);
        assert(t2[h as int] == with_value(b, v));
        assert(t2[h as int].1.len() == old.len());
        assert(t2[h as int].1.last() == (old.last().0, old.last().1.push(v)));
        assert(t2[h as int].1.drop_last() =~= old.drop_last());
    } else {
        assert(t2[h as int].1 =~= old.push((key, seq![v])));
    }
}

/// Positions `0..n` of a token list whose lines all read.
pub open spec fn line_positions(lines: Seq<Seq<char>>) -> Seq<usize> {
    Seq::new(lines.len(), |i: int| token_line_spec(lines[i])->Ok_0.1)
}

/// Every line is kept: reading a token list whose lines all name the same
/// (non-empty) word gives that word's bucket exactly one entry, holding the
/// positions of all the lines in file order.
pub proof fn lemma_one_word_lines(lines: Seq<Seq<char>>, key: Seq<char>)
    requires
        lines.len() > 0,
        key.len() > 0,
        forall|i: int|
            0 <= i < lines.len() ==> (#[trigger] token_line_spec(lines[i])) is Ok
                && token_line_spec(lines[i])->Ok_0.0 == key,
    ensures
        table_after(lines) is Ok,
        table_after(lines)->Ok_0.1 == key,
        spec_lazy_hash(key) < table_after(lines)->Ok_0.0.len(),
        table_after(lines)->Ok_0.0[spec_lazy_hash(key) as int].1 == seq![(key, line_positions(lines))],
    decreases lines.len(),
{
    let h = spec_lazy_hash(key) as int;
    let last = lines.last();
    assert(token_line_spec(lines[lines.len() - 1]) is Ok);
    let v = token_line_spec(last)->Ok_0.1;
    let front = lines.drop_last();
    if lines.len() == 1 {
        assert(front =~= Seq::<Seq<char>>::empty());
        let t = Seq::<BucketView>::empty();
        let prev = Seq::<char>::empty();
        assert(table_after(front) == Ok::<(Seq<BucketView>, Seq<char>), TokenError>((t, prev)));
        assert(token_accepted(t, prev, key));
        lemma_add_token_appends(t, prev, key, v);
        assert(line_positions(lines) =~= seq![v]);
    } else {
        assert forall|i: int| 0 <= i < front.len() implies (#[trigger] token_line_spec(front[i])) is Ok
            && token_line_spec(front[i])->Ok_0.0 == key by {
            assert(front[i] == lines[i]);
            assert(token_line_spec(lines[i]) is Ok);
        }
        lemma_one_word_lines(front, key);
        let t = table_after(front)->Ok_0.0;
        assert(grown(t, h as nat) == t);
        assert(token_accepted(t, key, key));
        lemma_add_token_appends(t, key, key, v);
        let t2 = add_token_spec(t, key, key, v).unwrap();
        assert(t2[h].1 =~= seq![(key, line_positions(front).push(v))]);
        assert(line_positions(front).push(v) =~= line_positions(lines));
    }
}

/// Once a line is refused, reading more lines gives that same error.
proof fn lemma_table_after_err(all: Seq<Seq<char>>, i: int)
    requires
        0 <= i <= all.len(),
    ensures
        table_after(all.take(i)) is Err ==> table_after(all) == table_after(all.take(i)),
    decreases all.len() - i,
{
    if i < all.len() {
        lemma_table_after_err(all, i + 1);
        assert(all.take(i + 1).drop_last() =~= all.take(i));
    } else {
        assert(all.take(i) =~= all);
    }
}

} // verus!
