use vstd::prelude::*;

verus! {

/// The multiplier of the polynomial prefix hash (a prime).
pub const MULTIPLIER: usize = 17;

/// Number of leading characters that take part in the hash.
pub const HASHED_CHARS: usize = 3;

/// Polynomial hash of a sequence of characters: each character's scalar value
/// is added after multiplying the running value by `MULTIPLIER`.
pub open spec fn poly_hash(chars: Seq<char>) -> nat
    decreases chars.len(),
{
    if chars.len() == 0 {
        0
    } else {
        poly_hash(chars.drop_last()) * 17 + (chars.last() as u32) as nat
    }
}

/// The hash of a word: the polynomial hash of its first three characters
/// (of all of them when it has fewer).
pub open spec fn spec_lazy_hash(word: Seq<char>) -> nat {
    if word.len() <= 3 {
        poly_hash(word)
    } else {
        poly_hash(word.take(3))
    }
}

/// Returns hash for the first 3 letters in a lowercase String.
pub fn lazy_hash(word: &str) -> (hash: usize)
    ensures
        hash == spec_lazy_hash(word@),
        hash <= 0x10FFFF * 307,
{
    let mut hash: usize = 0;
    let mut count: usize = 0;
    let ghost chars = word@;
    for c in it: word.chars()
        invariant
            it.seq() == chars,
            count == it.index() || (count == 3 && it.index() >= 3),
            count <= 3,
            hash == poly_hash(chars.take(count as int)),
            hash <= 0x10FFFF * (if count == 0 { 0int } else if count == 1 { 1int } else if count == 2 { 18int } else { 307int }),
    {
        if count < HASHED_CHARS {
            let code: u32 = c as u32;
            proof {
                vstd::utf8::char_is_scalar(c);
                assert(chars.take(count + 1).drop_last() =~= chars.take(count as int));
                assert(chars.take(count + 1).last() == c);
            }
            hash = hash * MULTIPLIER + (code as usize);
            count = count + 1;
        }
    }
    assert(chars.take(chars.len() as int) =~= chars);
    hash
}

/// The characters of a word that take part in its hash: the first three,
/// or all of them when it has fewer.
pub open spec fn hashed_prefix(word: Seq<char>) -> Seq<char> {
    if word.len() <= 3 {
        word
    } else {
        word.take(3)
    }
}

/// Only the hashed characters count: words with the same first three
/// characters (the same whole word when shorter) have the same hash.
pub proof fn lemma_hash_depends_on_first_three(a: Seq<char>, b: Seq<char>)
    requires
        hashed_prefix(a) == hashed_prefix(b),
    ensures
        spec_lazy_hash(a) == spec_lazy_hash(b),
{
}

/// The hash of a word, spelled out: with `c0 c1 c2` its first three
/// characters (fewer when it is shorter), each counted by its own scalar
/// value, the hash is `c0 * 17^2 + c1 * 17 + c2` (`c0 * 17 + c1` for two,
/// `c0` for one, 0 for none).
pub proof fn lemma_hash_formula(w: Seq<char>)
    ensures
        w.len() == 0 ==> spec_lazy_hash(w) == 0,
        w.len() == 1 ==> spec_lazy_hash(w) == w[0] as u32,
        w.len() == 2 ==> spec_lazy_hash(w) == (w[0] as u32) * 17 + (w[1] as u32),
        w.len() >= 3 ==> spec_lazy_hash(w) == (w[0] as u32) * 289 + (w[1] as u32) * 17 + (w[2] as u32),
{
    let p = if w.len() <= 3 { w } else { w.take(3) };
    assert(spec_lazy_hash(w) == poly_hash(p));
    if p.len() >= 1 {
        let p1 = p.take(1);
        assert(p1.drop_last() =~= Seq::<char>::empty());
        assert(p1.last() == p[0]);
        assert(poly_hash(p1.drop_last()) == 0);
        assert(poly_hash(p1) == p[0] as u32);
        if p.len() >= 2 {
            let p2 = p.take(2);
            assert(p2.drop_last() =~= p1);
            assert(p2.last() == p[1]);
            assert(poly_hash(p2) == (p[0] as u32) * 17 + (p[1] as u32));
            if p.len() >= 3 {
                let p3 = p.take(3);
                assert(p3.drop_last() =~= p2);
                assert(p3.last() == p[2]);
                assert(poly_hash(p3) == ((p[0] as u32) * 17 + (p[1] as u32)) * 17 + (p[2] as u32));
                assert(p3 =~= p);
            } else {
                assert(p2 =~= p);
            }
        } else {
            assert(p1 =~= p);
        }
    }
}

} // verus!
