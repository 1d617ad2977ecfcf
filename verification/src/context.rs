use vstd::prelude::*;

use crate::text::{push_char, trim_chars, trim_str};

verus! {

/// Bytes of corpus text shown on each side of an occurrence.
pub const AMOUNT_OF_CONTEXT_ON_EACH_SIDE: usize = 20;

/// Occurrences shown when the user does not ask for all of them.
pub const AMOUNT_TO_PRINT_STANDARD: usize = 25;

/// Where the context shown for an occurrence at byte `offset` starts:
/// `AMOUNT_OF_CONTEXT_ON_EACH_SIDE` bytes earlier, or at the start of the
/// corpus.
pub fn context_start(offset: usize) -> (start: usize)
    ensures
        start == if offset < 20 { 0 } else { offset - 20 },
{
    if AMOUNT_OF_CONTEXT_ON_EACH_SIDE > offset {
        0
    } else {
        offset - AMOUNT_OF_CONTEXT_ON_EACH_SIDE
    }
}

/// How many corpus bytes are shown for a word of `word_len` bytes: the word
/// and `AMOUNT_OF_CONTEXT_ON_EACH_SIDE` bytes on each side.
pub fn context_len(word_len: usize) -> (len: usize)
    requires
        word_len + 40 <= usize::MAX,
    ensures
        len == word_len + 40,
{
    word_len + 2 * AMOUNT_OF_CONTEXT_ON_EACH_SIDE
}

/// Whether to ask the user if all occurrences should be shown: only when
/// there are more than `AMOUNT_TO_PRINT_STANDARD`.
pub fn should_ask(total: usize) -> (ask: bool)
    ensures
        ask == (total > 25),
{
    total > AMOUNT_TO_PRINT_STANDARD
}

/// How many occurrences are shown: all of them, unless there are more than
/// `AMOUNT_TO_PRINT_STANDARD` and the user did not ask for all.
pub fn occurrences_to_show(total: usize, wants_all: bool) -> (shown: usize)
    ensures
        shown == if total > 25 && !wants_all { 25 } else { total },
{
    if total > AMOUNT_TO_PRINT_STANDARD && !wants_all {
        AMOUNT_TO_PRINT_STANDARD
    } else {
        total
    }
}

/// Whether the user's answer asks to see all occurrences: it is "y" or "Y"
/// once surrounding white space is removed.
pub open spec fn answer_is_yes(answer: Seq<char>) -> bool {
    trim_chars(answer) == seq!['y'] || trim_chars(answer) == seq!['Y']
}

/// Reads the user's answer to "Want to see all of them? (y/n)".
pub fn wants_all(answer: &str) -> (yes: bool)
    ensures
        yes == answer_is_yes(answer@),
{
    let t = trim_str(answer);
    let ghost chars = t@;
    let mut count: usize = 0;
    let mut first: char = ' ';
    for c in it: t.chars()
        invariant
            it.seq() == chars,
            count == if it.index() < 2 { it.index() as int } else { 2 },
            it.index() > 0 ==> first == chars[0],
    {
        if count == 0 {
            first = c;
        }
        if count < 2 {
            count = count + 1;
        }
    }
    let yes = count == 1 && (first == 'y' || first == 'Y');
    proof {
        if count == 1 {
            assert(chars =~= seq![first]);
        }
    }
    yes
}

/// The character shown for a byte of corpus text: a line break shows as a
/// space, every other byte as the Latin-1 character of the same number.
pub open spec fn shown_char(b: u8) -> char {
    if b == 10 {
        ' '
    } else {
        b as char
    }
}

/// The text shown for a stretch of corpus bytes.
pub fn render_context(buf: &[u8]) -> (text: String)
    ensures
        text@ == buf@.map_values(|b: u8| shown_char(b)),
{
    let mut text = String::new();
    let mut i: usize = 0;
    while i < buf.len()
        invariant
            i <= buf@.len(),
            text@ == buf@.take(i as int).map_values(|b: u8| shown_char(b)),
        decreases buf@.len() - i,
    {
        let b = buf[i];
        if b == 10 {
            push_char(&mut text, ' ');
        } else {
            push_char(&mut text, b as char);
        }
        i = i + 1;
        assert(text@ =~= buf@.take(i as int).map_values(|b: u8| shown_char(b)));
    }
    assert(buf@.take(buf@.len() as int) =~= buf@);
    text
}

/// Every byte of corpus text shows as itself in the rendered `text` (what
/// `render_context` returns), read as the Latin-1 character of the same
/// number; only a line break (byte 10) shows as a space.
pub proof fn lemma_render_keeps_bytes(buf: Seq<u8>, text: Seq<char>)
    requires
        text == buf.map_values(|b: u8| shown_char(b)),
    ensures
        text.len() == buf.len(),
        forall|i: int|
            0 <= i < buf.len() ==> {
                &&& buf[i] != 10 ==> #[trigger] text[i] as u32 == buf[i] as u32
                &&& buf[i] == 10 ==> text[i] == ' '
            },
{
}

} // verus!
