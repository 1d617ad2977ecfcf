use vstd::prelude::*;

use crate::base255::{
    base255, base255_value, lemma_base255_roundtrip, lemma_base255_shape, lemma_base255_value_nonneg,
    lemma_base255_value_prefix,
};
use crate::bucket_file::values_bytes;

verus! {

/// The groups of a stretch of a values file: the runs of bytes that each 0
/// closes. Gives the closed groups and the bytes after the last 0.
pub open spec fn zero_groups(bytes: Seq<u8>) -> (Seq<Seq<u8>>, Seq<u8>)
    decreases bytes.len(),
{
    if bytes.len() == 0 {
        (Seq::empty(), Seq::empty())
    } else {
        let (gs, cur) = zero_groups(bytes.drop_last());
        if bytes.last() == 0 {
            (gs.push(cur), Seq::empty())
        } else {
            (gs, cur.push(bytes.last()))
        }
    }
}

/// A group can be read as a position: it holds at least one digit and the
/// number fits in a `usize`.
pub open spec fn group_readable(g: Seq<u8>) -> bool {
    g.len() > 0 && base255_value(g) <= usize::MAX
}

/// The positions stored in a stretch of a values file: the base-255 value of
/// every group closed by a 0 (bytes after the last 0 are not read). `None`
/// when a group is empty or its number does not fit in a `usize`.
pub open spec fn read_index_spec(bytes: Seq<u8>) -> Option<Seq<usize>> {
    let gs = zero_groups(bytes).0;
    if exists|k: int| 0 <= k < gs.len() && !group_readable(#[trigger] gs[k]) {
        None
    } else {
        Some(Seq::new(gs.len(), |k: int| base255_value(gs[k]) as usize))
    }
}

/// The groups of a prefix of the bytes are the first groups of the bytes.
proof fn lemma_zero_groups_prefix(bytes: Seq<u8>, i: int, j: int)
    requires
        0 <= i <= j <= bytes.len(),
    ensures
        zero_groups(bytes.take(i)).0.len() <= zero_groups(bytes.take(j)).0.len(),
        forall|k: int| 0 <= k < zero_groups(bytes.take(i)).0.len() ==>
            #[trigger] zero_groups(bytes.take(j)).0[k] == zero_groups(bytes.take(i)).0[k],
    decreases j - i,
{
    if i < j {
        lemma_zero_groups_prefix(bytes, i, j - 1);
        assert(bytes.take(j).drop_last() =~= bytes.take(j - 1));
    }
}

/// The value of a group of digits that are not 0, or `None` when it is
/// empty or too large.
pub(crate) fn group_value(g: &Vec<u8>) -> (r: Option<usize>)
    requires
        forall|k: int| 0 <= k < g@.len() ==> g@[k] != 0,
    ensures
        r is None <==> !group_readable(g@),
        r is Some ==> r.unwrap() == base255_value(g@),
{
    if g.len() == 0 {
        return None;
    }
    let mut v: usize = 0;
    let mut i: usize = 0;
    while i < g.len()
        invariant
            i <= g@.len(),
            g@.len() > 0,
            forall|k: int| 0 <= k < g@.len() ==> g@[k] != 0,
            v == base255_value(g@.take(i as int)),
        decreases g@.len() - i,
    {
        proof {
            assert(g@.take(i + 1).drop_last() =~= g@.take(i as int));
            assert(g@.take(i + 1).last() == g@[i as int]);
        }
        let next = match v.checked_mul(255) {
            Some(m) => m.checked_add((g[i] - 1) as usize),
            None => None,
        };
        match next {
            Some(n) => {
                v = n;
            },
            None => {
                proof {
                    lemma_base255_value_nonneg(g@.take(i as int));
                    lemma_base255_value_prefix(g@, i + 1, g@.len() as int);
                    assert(g@.take(g@.len() as int) =~= g@);
                }
                return None;
            },
        }
        i = i + 1;
    }
    assert(g@.take(g@.len() as int) =~= g@);
    Some(v)
}

/// Reads the positions stored in a stretch of a values file: each run of
/// bytes up to a 0 is a number in base-255 digits, each stored plus one.
/// The stretch starts with a digit (a 0 there would mean that no number is
/// stored first). `None` when a later run is empty (two 0 bytes in a row) or
/// its number does not fit in a `usize`.
pub fn read_index_file(bytes: &[u8]) -> (r: Option<Vec<usize>>)
    requires
        bytes@.len() == 0 || bytes@[0] != 0,
    ensures
        read_index_spec(bytes@) is None ==> r is None,
        read_index_spec(bytes@) is Some ==> r is Some && r.unwrap()@ == read_index_spec(bytes@).unwrap(),
{
    let mut value_as_bytes: Vec<u8> = Vec::new();
    let mut result: Vec<usize> = Vec::new();
    let mut i: usize = 0;
    let ghost all = bytes@;
    while i < bytes.len()
        invariant
            i <= all.len(),
            all == bytes@,
            zero_groups(all.take(i as int)).1 == value_as_bytes@,
            forall|k: int| 0 <= k < value_as_bytes@.len() ==> value_as_bytes@[k] != 0,
            result@.len() == zero_groups(all.take(i as int)).0.len(),
            forall|k: int| 0 <= k < result@.len() ==> result@[k] == base255_value(zero_groups(all.take(i as int)).0[k])
                && group_readable(zero_groups(all.take(i as int)).0[k]),
        decreases all.len() - i,
    {
        let byte = bytes[i];
        proof {
            assert(all.take(i + 1).drop_last() =~= all.take(i as int));
            lemma_zero_groups_prefix(all, i + 1, all.len() as int);
            assert(all.take(all.len() as int) =~= all);
        }
        if byte == 0 {
            let ghost k = result@.len() as int;
            let ghost gs = zero_groups(all).0;
            assert(zero_groups(all.take(i + 1)).0[k] == value_as_bytes@);
            assert(gs[k] == value_as_bytes@);
            let v = match group_value(&value_as_bytes) {
                Some(v) => v,
                None => {
                    assert(!group_readable(gs[k]));
                    return None;
                },
            };
            result.push(v);
            value_as_bytes = Vec::new();
            assert(zero_groups(all.take(i + 1)).1 =~= value_as_bytes@);
        } else {
            value_as_bytes.push(byte);
        }
        i = i + 1;
    }
    proof {
        assert(all.take(all.len() as int) =~= all);
        let gs = zero_groups(all).0;
        assert forall|k: int| 0 <= k < gs.len() implies group_readable(#[trigger] gs[k]) by {
            assert(result@[k] == base255_value(gs[k]));
        }
        assert(result@ =~= Seq::new(gs.len(), |k: int| base255_value(gs[k]) as usize));
    }
    Some(result)
}

/// Appending digits that are not 0 extends the open group.
proof fn lemma_zero_groups_digits(x: Seq<u8>, d: Seq<u8>)
    requires
        forall|k: int| 0 <= k < d.len() ==> d[k] != 0,
    ensures
        zero_groups(x + d) == (zero_groups(x).0, zero_groups(x).1 + d),
    decreases d.len(),
{
    if d.len() == 0 {
        assert(x + d =~= x);
        assert(zero_groups(x).1 + d =~= zero_groups(x).1);
    } else {
        let p = d.drop_last();
        lemma_zero_groups_digits(x, p);
        assert((x + d).drop_last() =~= x + p);
        assert((x + d).last() == d.last());
        assert(zero_groups(x).1 + p.push(d.last()) =~= zero_groups(x).1 + d);
        assert(d =~= p.push(d.last()));
    }
}

/// The stored positions of a word group into their base-255 digits.
proof fn lemma_zero_groups_of_values(vals: Seq<usize>)
    ensures
        zero_groups(values_bytes(vals)).1 == Seq::<u8>::empty(),
        zero_groups(values_bytes(vals)).0 == vals.map_values(|v: usize| base255(v as nat)),
    decreases vals.len(),
{
    if vals.len() == 0 {
        assert(vals.map_values(|v: usize| base255(v as nat)) =~= Seq::<Seq<u8>>::empty());
    } else {
        let p = vals.drop_last();
        let v = vals.last();
        lemma_zero_groups_of_values(p);
        let x = values_bytes(p);
        let d = base255(v as nat);
        lemma_base255_shape(v as nat);
        lemma_zero_groups_digits(x, d);
        assert(Seq::<u8>::empty() + d =~= d);
        let y = x + d + seq![0u8];
        assert(y.drop_last() =~= x + d);
        assert(vals.map_values(|v: usize| base255(v as nat)) =~= p.map_values(|v: usize| base255(v as nat)).push(d));
    }
}

/// Reading back the stored form of a word's positions gives the positions.
pub proof fn lemma_read_index_roundtrip(vals: Seq<usize>)
    ensures
        read_index_spec(values_bytes(vals)) == Some(vals),
{
    lemma_zero_groups_of_values(vals);
    let gs = zero_groups(values_bytes(vals)).0;
    assert forall|k: int| 0 <= k < gs.len() implies group_readable(#[trigger] gs[k]) && base255_value(gs[k]) == vals[k] by {
        assert(gs[k] == base255(vals[k] as nat));
        lemma_base255_shape(vals[k] as nat);
        lemma_base255_roundtrip(vals[k] as nat);
    }
    assert(Seq::new(gs.len(), |k: int| base255_value(gs[k]) as usize) =~= vals);
}

/// The stored form of positions starts with a digit, never with a 0.
pub proof fn lemma_values_bytes_first(vals: Seq<usize>)
    ensures
        values_bytes(vals).len() > 0 ==> values_bytes(vals)[0] != 0,
    decreases vals.len(),
{
    if vals.len() > 0 {
        lemma_values_bytes_first(vals.drop_last());
        lemma_base255_shape(vals.last() as nat);
        let p = values_bytes(vals.drop_last());
        if p.len() == 0 {
            assert(values_bytes(vals)[0] == base255(vals.last() as nat)[0]);
        } else {
            assert(values_bytes(vals)[0] == p[0]);
        }
    }
}

} // verus!
