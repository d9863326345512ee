//! Ordering a selection of rows by a key, for listings.
use vstd::prelude::*;

verus! {

/// A sort key, compared field by field.
pub type Key = (u64, u64, u64);

pub open spec fn key_lt(a: Key, b: Key) -> bool {
    a.0 < b.0 || (a.0 == b.0 && (a.1 < b.1 || (a.1 == b.1 && a.2 < b.2)))
}

fn less(a: Key, b: Key) -> (r: bool)
    ensures
        r == key_lt(a, b),
{
    a.0 < b.0 || (a.0 == b.0 && (a.1 < b.1 || (a.1 == b.1 && a.2 < b.2)))
}

/// `idx` lists the selected indices, each once, in increasing key order.
pub open spec fn ordered_selection(keys: Seq<Key>, sel: Seq<bool>, idx: Seq<usize>) -> bool {
    &&& forall|k: int| 0 <= k < idx.len() ==> (#[trigger] idx[k]) < keys.len() && sel[idx[k] as int]
    &&& forall|k: int, l: int| 0 <= k < l < idx.len() ==> key_lt(keys[#[trigger] idx[k] as int], keys[#[trigger] idx[l] as int])
    &&& forall|i: int| 0 <= i < keys.len() && sel[i] ==> exists|k: int| 0 <= k < idx.len() && #[trigger] idx[k] == i
}

/// The selected keys are pairwise distinct.
pub open spec fn distinct_selected(keys: Seq<Key>, sel: Seq<bool>) -> bool {
    forall|i: int, j: int|
        0 <= i < keys.len() && 0 <= j < keys.len() && i != j && sel[i] && sel[j] ==> keys[i] != keys[j]
}

/// The indices whose flag is set, ordered by their keys.
pub fn order_selected(keys: &Vec<Key>, sel: &Vec<bool>) -> (idx: Vec<usize>)
    requires
        sel@.len() == keys@.len(),
        distinct_selected(keys@, sel@),
    ensures
        ordered_selection(keys@, sel@, idx@),
{
    let n = keys.len();
    let mut out: Vec<usize> = Vec::new();
    let mut i: usize = 0;
    while i < n
        invariant
            n == keys@.len(),
            sel@.len() == n,
            distinct_selected(keys@, sel@),
            i <= n,
            forall|k: int| 0 <= k < out@.len() ==> (#[trigger] out@[k]) < i && sel@[out@[k] as int],
            forall|k: int, l: int| 0 <= k < l < out@.len() ==> key_lt(keys@[#[trigger] out@[k] as int], keys@[#[trigger] out@[l] as int]),
            forall|m: int| 0 <= m < i && sel@[m] ==> exists|k: int| 0 <= k < out@.len() && #[trigger] out@[k] == m,
        decreases n - i,
    {
        if sel[i] {
            let ki = keys[i];
            let mut p: usize = 0;
            while p < out.len() && less(keys[out[p]], ki)
                invariant
                    n == keys@.len(),
                    i < n,
                    ki == keys@[i as int],
                    p <= out@.len(),
                    forall|k: int| 0 <= k < out@.len() ==> (#[trigger] out@[k]) < i,
                    forall|k: int| 0 <= k < p ==> key_lt(keys@[#[trigger] out@[k] as int], ki),
                decreases out@.len() - p,
            {
                p = p + 1;
            }
            let ghost old_out = out@;
            let mut next: Vec<usize> = Vec::new();
            let mut q: usize = 0;
            while q < p
                invariant
                    p <= old_out.len(),
                    out@ == old_out,
                    q <= p,
                    next@ == old_out.subrange(0, q as int),
                decreases p - q,
            {
                next.push(out[q]);
                q = q + 1;
                assert(next@ =~= old_out.subrange(0, q as int));
            }
            next.push(i);
            let mut q: usize = p;
            while q < out.len()
                invariant
                    p <= old_out.len(),
                    out@ == old_out,
                    p <= q <= old_out.len(),
                    next@ == old_out.subrange(0, p as int).push(i) + old_out.subrange(p as int, q as int),
                decreases old_out.len() - q,
            {
                next.push(out[q]);
                q = q + 1;
                assert(next@ =~= old_out.subrange(0, p as int).push(i) + old_out.subrange(p as int, q as int));
            }
            proof {
                let ns = next@;
                assert(ns.len() == old_out.len() + 1);
                assert forall|k: int| 0 <= k < ns.len() implies ns[k] == (if k < p {
                    old_out[k]
                } else if k == p {
                    i
                } else {
                    old_out[k - 1]
                }) by {}
                // The keys after the insertion point are not below `ki`.
                assert forall|k: int| p <= k < old_out.len() implies key_lt(ki, keys@[#[trigger] old_out[k] as int]) by {
                    let a = keys@[old_out[p as int] as int];
                    let b = keys@[old_out[k] as int];
                    assert(!key_lt(a, ki));
                    assert(a != ki) by {
                        assert(old_out[p as int] != i);
                    }
                    if k > p {
                        assert(key_lt(a, b));
                    }
                }
                assert forall|k: int, l: int| 0 <= k < l < ns.len() implies key_lt(keys@[#[trigger] ns[k] as int], keys@[#[trigger] ns[l] as int]) by {
                    if l < p {
                    } else if l == p {
                    } else if k < p {
                        assert(key_lt(keys@[old_out[k] as int], ki));
                        assert(key_lt(ki, keys@[old_out[l - 1] as int]));
                    } else if k == p {
                    } else {
                        assert(key_lt(keys@[old_out[k - 1] as int], keys@[old_out[l - 1] as int]));
                    }
                }
                assert forall|m: int| 0 <= m < i + 1 && sel@[m] implies exists|k: int| 0 <= k < ns.len() && #[trigger] ns[k] == m by {
                    if m == i {
                        assert(ns[p as int] == m);
                    } else {
                        let k = choose|k: int| 0 <= k < old_out.len() && old_out[k] == m;
                        if k < p {
                            assert(ns[k] == m);
                        } else {
                            assert(ns[k + 1] == m);
                        }
                    }
                }
            }
            out = next;
        }
        i = i + 1;
    }
    out
}

} // verus!
