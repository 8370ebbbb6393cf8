//! A merge sort of composite keys, ordered lexicographically.
use vstd::prelude::*;

verus! {

broadcast use {vstd::seq_lib::group_to_multiset_ensures, vstd::multiset::group_multiset_axioms};

/// A sort key: three components compared one after another.
pub type SortKey = (i128, u64, u64);

/// `a` comes no later than `b` in lexicographic order.
pub open spec fn key_le(a: SortKey, b: SortKey) -> bool {
    a.0 < b.0 || (a.0 == b.0 && (a.1 < b.1 || (a.1 == b.1 && a.2 <= b.2)))
}

/// `a` comes strictly before `b` in lexicographic order.
pub open spec fn key_lt(a: SortKey, b: SortKey) -> bool {
    key_le(a, b) && a != b
}

pub open spec fn sorted(s: Seq<SortKey>) -> bool {
    forall|i: int, j: int| 0 <= i < j < s.len() ==> key_le(#[trigger] s[i], #[trigger] s[j])
}

pub open spec fn strictly_sorted(s: Seq<SortKey>) -> bool {
    forall|i: int, j: int| 0 <= i < j < s.len() ==> key_lt(#[trigger] s[i], #[trigger] s[j])
}

fn key_le_exec(a: SortKey, b: SortKey) -> (r: bool)
    ensures
        r == key_le(a, b),
{
    a.0 < b.0 || (a.0 == b.0 && (a.1 < b.1 || (a.1 == b.1 && a.2 <= b.2)))
}

fn merge(a: Vec<SortKey>, b: Vec<SortKey>) -> (r: Vec<SortKey>)
    requires
        sorted(a@),
        sorted(b@),
    ensures
        sorted(r@),
        r@.to_multiset() == a@.to_multiset().add(b@.to_multiset()),
{
    let mut out: Vec<SortKey> = Vec::new();
    let mut i: usize = 0;
    let mut j: usize = 0;
    let na = a.len();
    let nb = b.len();
    assert(a@.take(0) =~= Seq::<SortKey>::empty());
    assert(b@.take(0) =~= Seq::<SortKey>::empty());
    while i < na || j < nb
        invariant
            na == a@.len(),
            nb == b@.len(),
            i <= na,
            j <= nb,
            sorted(a@),
            sorted(b@),
            sorted(out@),
            out@.to_multiset() == a@.take(i as int).to_multiset().add(
                b@.take(j as int).to_multiset(),
            ),
            forall|k: int| 0 <= k < out@.len() && i < na ==> key_le(#[trigger] out@[k], a@[i as int]),
            forall|k: int| 0 <= k < out@.len() && j < nb ==> key_le(#[trigger] out@[k], b@[j as int]),
        decreases na + nb - i - j,
    {
        let take_a = if i >= na {
            false
        } else if j >= nb {
            true
        } else {
            key_le_exec(a[i], b[j])
        };
        if take_a {
            let x = a[i];
            proof {
                assert(a@.take(i + 1) =~= a@.take(i as int).push(x));
            }
            out.push(x);
            i += 1;
            proof {
                assert forall|k: int| 0 <= k < out@.len() && i < na implies key_le(
                    #[trigger] out@[k],
                    a@[i as int],
                ) by {
                    assert(key_le(a@[i - 1], a@[i as int]));
                }
            }
        } else {
            let x = b[j];
            proof {
                assert(b@.take(j + 1) =~= b@.take(j as int).push(x));
            }
            out.push(x);
            j += 1;
            proof {
                assert forall|k: int| 0 <= k < out@.len() && j < nb implies key_le(
                    #[trigger] out@[k],
                    b@[j as int],
                ) by {
                    assert(key_le(b@[j - 1], b@[j as int]));
                }
            }
        }
    }
    assert(a@.take(na as int) =~= a@);
    assert(b@.take(nb as int) =~= b@);
    out
}

fn sort_range(v: &Vec<SortKey>, lo: usize, hi: usize) -> (r: Vec<SortKey>)
    requires
        lo <= hi <= v@.len(),
    ensures
        sorted(r@),
        r@.to_multiset() == v@.subrange(lo as int, hi as int).to_multiset(),
    decreases hi - lo,
{
    if hi - lo <= 1 {
        let mut out: Vec<SortKey> = Vec::new();
        if hi - lo == 1 {
            out.push(v[lo]);
            assert(out@ =~= v@.subrange(lo as int, hi as int));
        } else {
            assert(out@ =~= v@.subrange(lo as int, hi as int));
        }
        return out;
    }
    let mid = lo + (hi - lo) / 2;
    let left = sort_range(v, lo, mid);
    let right = sort_range(v, mid, hi);
    proof {
        assert(v@.subrange(lo as int, hi as int) =~= v@.subrange(lo as int, mid as int) + v@.subrange(
            mid as int,
            hi as int,
        ));
        vstd::seq_lib::lemma_multiset_commutative(
            v@.subrange(lo as int, mid as int),
            v@.subrange(mid as int, hi as int),
        );
    }
    merge(left, right)
}

/// Sorts the keys in lexicographic order.
pub fn sort_keys(v: &Vec<SortKey>) -> (r: Vec<SortKey>)
    ensures
        sorted(r@),
        r@.to_multiset() == v@.to_multiset(),
        r@.len() == v@.len(),
        forall|x: SortKey| r@.contains(x) <==> v@.contains(x),
        v@.no_duplicates() ==> r@.no_duplicates() && strictly_sorted(r@),
{
    assert(v@.subrange(0, v@.len() as int) =~= v@);
    let r = sort_range(v, 0, v.len());
    proof {
        assert forall|x: SortKey| r@.contains(x) <==> v@.contains(x) by {
            vstd::seq_lib::to_multiset_contains(r@, x);
            vstd::seq_lib::to_multiset_contains(v@, x);
        }
        vstd::seq_lib::to_multiset_len(r@);
        vstd::seq_lib::to_multiset_len(v@);
        if v@.no_duplicates() {
            v@.lemma_multiset_has_no_duplicates();
            r@.lemma_multiset_has_no_duplicates_conv();
        }
    }
    r
}

} // verus!
