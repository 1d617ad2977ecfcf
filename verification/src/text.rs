use vstd::prelude::*;

verus! {

/// Appends one character to a `String`.
///
/// Trusted: calls `String::push`, which std documents as appending the given
/// `char` to the end of the string; the contract states exactly that.
#[verifier::external_body]
pub(crate) fn push_char(s: &mut String, c: char)
    ensures
        final(s)@ == old(s)@.push(c),
{
    s.push(c);
}

/// Removes the last character of a `String`, if any.
///
/// Trusted: calls `String::pop`, which std documents as removing the last
/// character and returning it, or returning `None` when the string is empty.
#[verifier::external_body]
pub(crate) fn pop_char(s: &mut String) -> (ret: Option<char>)
    ensures
        old(s)@.len() == 0 ==> ret is None && final(s)@ == old(s)@,
        old(s)@.len() > 0 ==> ret == Some(old(s)@.last()) && final(s)@ == old(s)@.drop_last(),
{
    s.pop()
}

} // verus!

verus! {

/// Whether `c` has the Unicode `White_Space` property, the set that std's
/// `char::is_whitespace` and `str::trim` use.
pub open spec fn is_white_space(c: char) -> bool {
    let u = c as u32;
    ||| 0x09 <= u <= 0x0D
    ||| u == 0x20
    ||| u == 0x85
    ||| u == 0xA0
    ||| u == 0x1680
    ||| 0x2000 <= u <= 0x200A
    ||| u == 0x2028
    ||| u == 0x2029
    ||| u == 0x202F
    ||| u == 0x205F
    ||| u == 0x3000
}

/// `s` without its leading white space.
pub open spec fn trim_start_chars(s: Seq<char>) -> Seq<char>
    decreases s.len(),
{
    if s.len() > 0 && is_white_space(s[0]) {
        trim_start_chars(s.drop_first())
    } else {
        s
    }
}

/// `s` without its trailing white space.
pub open spec fn trim_end_chars(s: Seq<char>) -> Seq<char>
    decreases s.len(),
{
    if s.len() > 0 && is_white_space(s.last()) {
        trim_end_chars(s.drop_last())
    } else {
        s
    }
}

/// `s` without leading and trailing white space.
pub open spec fn trim_chars(s: Seq<char>) -> Seq<char> {
    trim_end_chars(trim_start_chars(s))
}

/// The position of the first space character of `s`, if it has one.
pub open spec fn first_space(s: Seq<char>) -> Option<nat>
    decreases s.len(),
{
    if s.len() == 0 {
        None
    } else if s[0] == ' ' {
        Some(0)
    } else {
        match first_space(s.drop_first()) {
            Some(i) => Some(i + 1),
            None => None,
        }
    }
}

/// Whether `c` is one of the ASCII digits '0' to '9'.
pub open spec fn is_decimal_digit(c: char) -> bool {
    '0' <= c && c <= '9'
}

/// The number written by a sequence of decimal digits.
pub open spec fn decimal_value(digits: Seq<char>) -> nat
    decreases digits.len(),
{
    if digits.len() == 0 {
        0
    } else {
        decimal_value(digits.drop_last()) * 10 + ((digits.last() as u32) - 48) as nat
    }
}

/// What `str::parse::<usize>` accepts: an optional '+' followed by at least
/// one decimal digit and nothing else, with a value that fits in `usize`.
pub open spec fn parse_usize_spec(s: Seq<char>) -> Option<usize> {
    let digits = if s.len() > 0 && s[0] == '+' {
        s.drop_first()
    } else {
        s
    };
    if digits.len() > 0 && (forall|i: int| 0 <= i < digits.len() ==> is_decimal_digit(#[trigger] digits[i]))
        && decimal_value(digits) <= usize::MAX {
        Some(decimal_value(digits) as usize)
    } else {
        None
    }
}

/// Removes leading and trailing white space.
///
/// Trusted: calls `str::trim`, which std documents as removing leading and
/// trailing characters with the Unicode `White_Space` property.
#[verifier::external_body]
pub(crate) fn trim_str(s: &str) -> (res: &str)
    ensures
        res@ == trim_chars(s@),
{
    s.trim()
}

/// The parts of a line before and after a separator.
pub type StrHalves<'a> = (&'a str, &'a str);

/// Splits at the first space: the part before it and the part after it.
///
/// Trusted: calls `str::split_once` with the pattern `" "`, which std
/// documents as splitting on the first occurrence of the pattern and
/// returning `None` when it does not occur.
#[verifier::external_body]
pub(crate) fn split_at_first_space<'a>(s: &'a str) -> (res: Option<StrHalves<'a>>)
    ensures
        res is None <==> first_space(s@) is None,
        res is Some ==> res.unwrap().0@ == s@.take(first_space(s@).unwrap() as int),
        res is Some ==> res.unwrap().1@ == s@.skip(first_space(s@).unwrap() as int + 1),
{
    s.split_once(" ")
}

/// Parses a decimal number.
///
/// Trusted: calls `str::parse::<usize>` (`usize::from_str`), which std
/// documents as accepting an optional `+` followed by digits only, and
/// failing on an empty string, on any other character and on overflow.
#[verifier::external_body]
pub(crate) fn parse_usize(s: &str) -> (res: Option<usize>)
    ensures
        res == parse_usize_spec(s@),
{
    s.parse::<usize>().ok()
}

/// A UTF-8 encoding has at least one byte per character.
proof fn lemma_utf8_len_at_least_chars(s: Seq<char>)
    ensures
        vstd::utf8::encode_utf8(s).len() >= s.len(),
    decreases s.len(),
{
    if s.len() > 0 {
        lemma_utf8_len_at_least_chars(s.drop_first());
    }
}

/// The number of characters of a string.
pub fn char_count(s: &str) -> (n: usize)
    ensures
        n == s@.len(),
{
    let bytes = s.as_bytes();
    proof {
        lemma_utf8_len_at_least_chars(s@);
    }
    assert(bytes@.len() == bytes.len());
    let ghost total = bytes@.len();
    let mut n: usize = 0;
    for c in it: s.chars()
        invariant
            n == it.index(),
            it.seq() == s@,
            s@.len() <= total,
            total == bytes@.len(),
            bytes@.len() <= usize::MAX,
    {
        n = n + 1;
    }
    n
}

} // verus!
