use vstd::prelude::*;

use crate::text::{pop_char, push_char};

verus! {

/// The character that stands for every one of the Swedish letters that the
/// index cannot tell apart ('{', 0x7B).
pub const MERGED_LETTER: char = '{';

/// The byte that ends the three-byte sequence standing for an unreadable
/// letter in the token list.
pub const UNREADABLE_LAST_BYTE: u8 = 189;

/// Removes up to two characters from the end of a sequence.
pub open spec fn drop_two_last(s: Seq<char>) -> Seq<char> {
    if s.len() >= 2 {
        s.take(s.len() - 2)
    } else {
        Seq::empty()
    }
}

/// What `map_from_token_to_latin` makes of a byte sequence: each byte is read
/// as the Latin-1 character of the same number, except that byte 189 replaces
/// the (up to) two characters before it by `MERGED_LETTER`.
pub open spec fn token_to_latin(bytes: Seq<u8>) -> Seq<char>
    decreases bytes.len(),
{
    if bytes.len() == 0 {
        Seq::empty()
    } else {
        let prev = token_to_latin(bytes.drop_last());
        if bytes.last() == 189 {
            drop_two_last(prev).push('{')
        } else {
            prev.push(bytes.last() as char)
        }
    }
}

/// The character that `map_from_io_to_latin` puts in place of `c`:
/// 'å', 'ä' and 'ö' become `MERGED_LETTER`, everything else is kept.
pub open spec fn io_char_to_latin(c: char) -> char {
    if c == '\u{e5}' || c == '\u{e4}' || c == '\u{f6}' {
        '{'
    } else {
        c
    }
}

/// What `map_from_io_to_latin` makes of a character sequence.
pub open spec fn io_to_latin(chars: Seq<char>) -> Seq<char> {
    chars.map_values(|c: char| io_char_to_latin(c))
}

/// Maps a word of the token list, read byte by byte, to the index's alphabet.
pub fn map_from_token_to_latin(word: &str) -> (res: String)
    ensures
        res@ == token_to_latin(vstd::utf8::encode_utf8(word@)),
{
    let bytes = word.as_bytes();
    let mut res = String::new();
    let mut i: usize = 0;
    while i < bytes.len()
        invariant
            0 <= i <= bytes@.len(),
            bytes@ == vstd::utf8::encode_utf8(word@),
            res@ == token_to_latin(bytes@.take(i as int)),
        decreases bytes@.len() - i,
    {
        let b = bytes[i];
        let ghost prev = res@;
        proof {
            assert(bytes@.take(i + 1).drop_last() =~= bytes@.take(i as int));
            assert(bytes@.take(i + 1).last() == b);
        }
        if b == UNREADABLE_LAST_BYTE {
            pop_char(&mut res);
            pop_char(&mut res);
            push_char(&mut res, MERGED_LETTER);
            proof {
                if prev.len() >= 2 {
                    assert(prev.drop_last().drop_last() =~= prev.take(prev.len() - 2));
                } else if prev.len() == 1 {
                    assert(prev.drop_last() =~= Seq::<char>::empty());
                }
            }
        } else {
            push_char(&mut res, b as char);
        }
        i = i + 1;
    }
    assert(bytes@.take(bytes@.len() as int) =~= bytes@);
    res
}

/// Maps a word typed by the user to the index's alphabet: 'å', 'ä' and 'ö'
/// all become `MERGED_LETTER`.
pub fn map_from_io_to_latin(word: &str) -> (res: String)
    ensures
        res@ == io_to_latin(word@),
{
    let mut res = String::new();
    let ghost chars = word@;
    for c in it: word.chars()
        invariant
            it.seq() == chars,
            res@ == io_to_latin(chars.take(it.index() as int)),
    {
        let ghost k = it.index();
        proof {
            assert(io_to_latin(chars.take(k + 1)) =~= io_to_latin(chars.take(k)).push(io_char_to_latin(c)));
        }
        if c == '\u{e5}' || c == '\u{e4}' || c == '\u{f6}' {
            push_char(&mut res, MERGED_LETTER);
        } else {
            push_char(&mut res, c);
        }
    }
    assert(chars.take(chars.len() as int) =~= chars);
    res
}

/// Every character is a Latin-1 one (below 256), so it fits in one byte.
pub open spec fn is_latin1(s: Seq<char>) -> bool {
    forall|i: int| 0 <= i < s.len() ==> (#[trigger] s[i] as u32) < 256
}

/// A word written one byte per character (its Latin-1 bytes when the word
/// is Latin-1).
pub open spec fn latin1_bytes(s: Seq<char>) -> Seq<u8> {
    s.map_values(|c: char| (c as u32) as u8)
}

/// The Latin-1 bytes of a word, or `None` when it holds a character that
/// Latin-1 lacks.
pub fn to_latin1(word: &str) -> (bytes: Option<Vec<u8>>)
    ensures
        bytes is None <==> !is_latin1(word@),
        bytes is Some ==> bytes.unwrap()@ == latin1_bytes(word@),
{
    let mut bytes: Vec<u8> = Vec::new();
    let ghost chars = word@;
    for c in it: word.chars()
        invariant
            it.seq() == chars,
            chars == word@,
            bytes@ == latin1_bytes(chars.take(it.index() as int)),
            is_latin1(chars.take(it.index() as int)),
    {
        let code: u32 = c as u32;
        if code >= 256 {
            assert(chars[it.index() as int] == c);
            assert(!((chars[it.index() as int] as u32) < 256));
            return None;
        }
        bytes.push(code as u8);
        assert(bytes@ =~= latin1_bytes(chars.take(it.index() + 1)));
        assert(chars.take(it.index() + 1)[it.index() as int] == c);
    }
    assert(chars.take(chars.len() as int) =~= chars);
    Some(bytes)
}

/// The index words made from the token list are Latin-1.
pub proof fn lemma_token_to_latin_is_latin1(bytes: Seq<u8>)
    ensures
        is_latin1(token_to_latin(bytes)),
    decreases bytes.len(),
{
    if bytes.len() > 0 {
        lemma_token_to_latin_is_latin1(bytes.drop_last());
        let prev = token_to_latin(bytes.drop_last());
        let b = bytes.last();
        let c = b as char;
        assert((c as u32) < 256);
        let r = token_to_latin(bytes);
        assert forall|i: int| 0 <= i < r.len() implies (#[trigger] r[i] as u32) < 256 by {
            if i < r.len() - 1 {
                if b == 189 {
                    assert(r[i] == drop_two_last(prev)[i]);
                    assert(drop_two_last(prev)[i] == prev[i]);
                } else {
                    assert(r[i] == prev[i]);
                }
            }
        }
    }
}

/// 'å', 'ä' or 'ö'.
pub open spec fn is_merged_letter(c: char) -> bool {
    c == '\u{e5}' || c == '\u{e4}' || c == '\u{f6}'
}

/// How the token list spells a word: each of 'å', 'ä' and 'ö' stands there
/// as the replacement character U+FFFD.
pub open spec fn token_spelling(w: Seq<char>) -> Seq<char> {
    w.map_values(|c: char| if is_merged_letter(c) { '\u{fffd}' } else { c })
}

/// The UTF-8 encoding of a sequence with one more character.
proof fn lemma_encode_utf8_push(s: Seq<char>, c: char)
    ensures
        vstd::utf8::encode_utf8(s.push(c)) == vstd::utf8::encode_utf8(s) + vstd::utf8::encode_scalar(c as u32),
    decreases s.len(),
{
    if s.len() == 0 {
        assert(s.push(c).drop_first() =~= Seq::<char>::empty());
        assert(vstd::utf8::encode_utf8(Seq::<char>::empty()) =~= Seq::<u8>::empty());
        assert(vstd::utf8::encode_utf8(s.push(c)) =~= vstd::utf8::encode_scalar(c as u32));
    } else {
        lemma_encode_utf8_push(s.drop_first(), c);
        assert(s.push(c).drop_first() =~= s.drop_first().push(c));
        assert(s.push(c)[0] == s[0]);
        assert(vstd::utf8::encode_utf8(s.push(c)) =~= vstd::utf8::encode_scalar(s[0] as u32)
            + (vstd::utf8::encode_utf8(s.drop_first()) + vstd::utf8::encode_scalar(c as u32)));
    }
}

/// A word whose letters are ASCII or 'å', 'ä', 'ö', spelled as in the token
/// list and mapped with `map_from_token_to_latin`, gives the same index word
/// as the word typed by the user mapped with `map_from_io_to_latin`.
pub proof fn lemma_token_spelling_matches_io(w: Seq<char>)
    requires
        forall|i: int| 0 <= i < w.len() ==> (#[trigger] w[i] as u32) < 128 || is_merged_letter(w[i]),
    ensures
        token_to_latin(vstd::utf8::encode_utf8(token_spelling(w))) == io_to_latin(w),
    decreases w.len(),
{
    if w.len() == 0 {
        assert(token_spelling(w) =~= Seq::<char>::empty());
        assert(io_to_latin(w) =~= Seq::<char>::empty());
    } else {
        let p = w.drop_last();
        let c = w.last();
        assert forall|i: int| 0 <= i < p.len() implies (#[trigger] p[i] as u32) < 128 || is_merged_letter(p[i]) by {
            assert(p[i] == w[i]);
        }
        lemma_token_spelling_matches_io(p);
        assert(token_spelling(w) =~= token_spelling(p).push(token_spelling(w).last()));
        assert(io_to_latin(w) =~= io_to_latin(p).push(io_char_to_latin(c)));
        let t = token_spelling(w).last();
        lemma_encode_utf8_push(token_spelling(p), t);
        let x = vstd::utf8::encode_utf8(token_spelling(p));
        if is_merged_letter(c) {
            assert(t == '\u{fffd}');
            assert(t as u32 == 0xFFFD);
            assert(0xE0u8 | ((0xFFFDu32 >> 12u32) & 0x0Fu32) as u8 == 0xEFu8) by (bit_vector);
            assert(0x80u8 | ((0xFFFDu32 >> 6u32) & 0x3Fu32) as u8 == 0xBFu8) by (bit_vector);
            assert(0x80u8 | (0xFFFDu32 & 0x3Fu32) as u8 == 0xBDu8) by (bit_vector);
            let bytes = x + seq![0xEFu8, 0xBFu8, 0xBDu8];
            assert(vstd::utf8::encode_scalar(t as u32) =~= seq![0xEFu8, 0xBFu8, 0xBDu8]);
            assert(bytes.drop_last() =~= x + seq![0xEFu8, 0xBFu8]);
            assert((x + seq![0xEFu8, 0xBFu8]).drop_last() =~= x + seq![0xEFu8]);
            assert((x + seq![0xEFu8]).drop_last() =~= x);
            let base = token_to_latin(x);
            assert((x + seq![0xEFu8]).last() == 0xEFu8);
            assert(token_to_latin(x + seq![0xEFu8]) == base.push(0xEFu8 as char));
            assert((x + seq![0xEFu8, 0xBFu8]).last() == 0xBFu8);
            assert(token_to_latin(x + seq![0xEFu8, 0xBFu8]) == base.push(0xEFu8 as char).push(0xBFu8 as char));
            assert(drop_two_last(base.push(0xEFu8 as char).push(0xBFu8 as char)) =~= base);
        } else {
            let v = c as u32;
            assert(t == c);
            assert(v < 128);
            let b = (v & 0x7Fu32) as u8;
            assert(((v & 0x7Fu32) as u8) as u32 == v) by (bit_vector)
                requires
                    v < 128u32,
            ;
            assert(vstd::utf8::encode_scalar(v) =~= seq![b]);
            assert((x + seq![b]).drop_last() =~= x);
            vstd::utf8::char_u32_cast(c, v);
            assert(b as char == c);
        }
    }
}

/// Mapping a typed word a second time changes nothing.
pub proof fn lemma_io_to_latin_idempotent(w: Seq<char>)
    ensures
        io_to_latin(io_to_latin(w)) == io_to_latin(w),
{
    assert(io_to_latin(io_to_latin(w)) =~= io_to_latin(w));
}

/// Mapping a typed word keeps its length and every character in place,
/// except 'å', 'ä' and 'ö', each of which becomes '{'.
pub proof fn lemma_io_map_keeps_other_chars(w: Seq<char>)
    ensures
        io_to_latin(w).len() == w.len(),
        forall|i: int|
            0 <= i < w.len() ==> {
                let c = #[trigger] io_to_latin(w)[i];
                &&& (w[i] == '\u{e5}' || w[i] == '\u{e4}' || w[i] == '\u{f6}') ==> c == '{'
                &&& !(w[i] == '\u{e5}' || w[i] == '\u{e4}' || w[i] == '\u{f6}') ==> c == w[i]
            },
{
}

} // verus!
