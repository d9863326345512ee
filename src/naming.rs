//! Ordering categories by name, in code-point order.
use vstd::prelude::*;
use crate::models::Category;
use crate::text::chars_of;

verus! {

/// `a` sorts before `b`, character by character by code point, a proper
/// prefix first.
pub open spec fn text_lt(a: Seq<char>, b: Seq<char>) -> bool
    decreases a.len(),
{
    if a.len() == 0 {
        b.len() > 0
    } else if b.len() == 0 {
        false
    } else if a[0] < b[0] {
        true
    } else if a[0] == b[0] {
        text_lt(a.skip(1), b.skip(1))
    } else {
        false
    }
}

pub proof fn lemma_text_lt_trans(a: Seq<char>, b: Seq<char>, c: Seq<char>)
    requires
        text_lt(a, b),
        text_lt(b, c),
    ensures
        text_lt(a, c),
    decreases a.len(),
{
    if a.len() > 0 && b.len() > 0 && c.len() > 0 {
        if a[0] == b[0] && b[0] == c[0] {
            lemma_text_lt_trans(a.skip(1), b.skip(1), c.skip(1));
        }
    }
}

pub proof fn lemma_text_lt_total(a: Seq<char>, b: Seq<char>)
    ensures
        a != b ==> text_lt(a, b) || text_lt(b, a),
        !(text_lt(a, b) && text_lt(b, a)),
    decreases a.len(),
{
    if a.len() > 0 && b.len() > 0 {
        lemma_text_lt_total(a.skip(1), b.skip(1));
        if a[0] == b[0] && a != b {
            assert(a.skip(1) != b.skip(1)) by {
                if a.skip(1) == b.skip(1) {
                    assert(a =~= seq![a[0]] + a.skip(1));
                    assert(b =~= seq![b[0]] + b.skip(1));
                }
            }
        }
    } else if a.len() == 0 && b.len() == 0 {
        assert(a =~= b);
    }
}

/// Name order, ties broken by id.
pub open spec fn cat_lt(x: Category, y: Category) -> bool {
    text_lt(x.name@, y.name@) || (x.name@ == y.name@ && x.id < y.id)
}

fn text_less(a: &str, b: &str) -> (r: bool)
    ensures
        r == text_lt(a@, b@),
{
    let x = chars_of(a);
    let y = chars_of(b);
    let mut i: usize = 0;
    assert(a@.skip(0) =~= a@);
    assert(b@.skip(0) =~= b@);
    while i < x.len() && i < y.len()
        invariant
            x@ == a@,
            y@ == b@,
            i <= x@.len(),
            i <= y@.len(),
            text_lt(a@, b@) == text_lt(a@.skip(i as int), b@.skip(i as int)),
        decreases x@.len() - i,
    {
        let c = x[i];
        let d = y[i];
        assert(a@.skip(i as int)[0] == c && b@.skip(i as int)[0] == d);
        if c < d {
            return true;
        }
        if c != d {
            return false;
        }
        assert(a@.skip(i as int).skip(1) =~= a@.skip(i + 1));
        assert(b@.skip(i as int).skip(1) =~= b@.skip(i + 1));
        i = i + 1;
    }
    i < y.len()
}

fn cat_less(x: &Category, y: &Category) -> (r: bool)
    ensures
        r == cat_lt(*x, *y),
{
    if text_less(x.name.as_str(), y.name.as_str()) {
        return true;
    }
    x.name == y.name && x.id < y.id
}

/// `idx` lists every index of `cats` once, in name order.
pub open spec fn by_name(cats: Seq<Category>, idx: Seq<usize>) -> bool {
    &&& forall|k: int| 0 <= k < idx.len() ==> (#[trigger] idx[k]) < cats.len()
    &&& forall|k: int, l: int| 0 <= k < l < idx.len() ==> cat_lt(cats[#[trigger] idx[k] as int], cats[#[trigger] idx[l] as int])
    &&& forall|i: int| 0 <= i < cats.len() ==> #[trigger] idx.contains(i as usize)
}

/// The indices of the categories in name order; ids must be distinct.
pub fn order_by_name(cats: &Vec<Category>) -> (idx: Vec<usize>)
    requires
        forall|i: int, j: int| 0 <= i < cats@.len() && 0 <= j < cats@.len() && i != j ==> (#[trigger] cats@[i]).id != (#[trigger] cats@[j]).id,
    ensures
        by_name(cats@, idx@),
{
    let n = cats.len();
    let mut out: Vec<usize> = Vec::new();
    let mut i: usize = 0;
    while i < n
        invariant
            n == cats@.len(),
            forall|a: int, b: int| 0 <= a < cats@.len() && 0 <= b < cats@.len() && a != b ==> (#[trigger] cats@[a]).id != (#[trigger] cats@[b]).id,
            i <= n,
            forall|k: int| 0 <= k < out@.len() ==> (#[trigger] out@[k]) < i,
            forall|k: int, l: int| 0 <= k < l < out@.len() ==> cat_lt(cats@[#[trigger] out@[k] as int], cats@[#[trigger] out@[l] as int]),
            forall|m: int| 0 <= m < i ==> #[trigger] out@.contains(m as usize),
        decreases n - i,
    {
        let mut p: usize = 0;
        while p < out.len() && cat_less(&cats[out[p]], &cats[i])
            invariant
                n == cats@.len(),
                i < n,
                p <= out@.len(),
                forall|k: int| 0 <= k < out@.len() ==> (#[trigger] out@[k]) < i,
                forall|k: int| 0 <= k < p ==> cat_lt(cats@[#[trigger] out@[k] as int], cats@[i as int]),
            decreases out@.len() - p,
        {
            p = p + 1;
        }
        let ghost old_out = out@;
        let ghost ci = cats@[i as int];
        let mut next: Vec<usize> = Vec::new();
        let mut q: usize = 0;
        while q < p
            invariant
                p <= old_out.len(),
                out@ == old_out,
                q <= p,
                next@ == old_out.subrange(0, q as int),
            decreases p - q,
        {
            next.push(out[q]);
            q = q + 1;
            assert(next@ =~= old_out.subrange(0, q as int));
        }
        next.push(i);
        let mut q: usize = p;
        while q < out.len()
            invariant
                p <= old_out.len(),
                out@ == old_out,
                p <= q <= old_out.len(),
                next@ == old_out.subrange(0, p as int).push(i) + old_out.subrange(p as int, q as int),
            decreases old_out.len() - q,
        {
            next.push(out[q]);
            q = q + 1;
            assert(next@ =~= old_out.subrange(0, p as int).push(i) + old_out.subrange(p as int, q as int));
        }
        proof {
            let ns = next@;
            assert(ns.len() == old_out.len() + 1);
            assert forall|k: int| 0 <= k < ns.len() implies ns[k] == (if k < p {
                old_out[k]
            } else if k == p {
                i
            } else {
                old_out[k - 1]
            }) by {}
            assert forall|k: int| p <= k < old_out.len() implies cat_lt(ci, cats@[#[trigger] old_out[k] as int]) by {
                let x = cats@[old_out[p as int] as int];
                let y = cats@[old_out[k] as int];
                assert(!cat_lt(x, ci));
                assert(x.id != ci.id) by {
                    assert(old_out[p as int] != i);
                }
                lemma_text_lt_total(x.name@, ci.name@);
                assert(cat_lt(ci, x));
                if k > p {
                    assert(cat_lt(x, y));
                    lemma_text_lt_total(x.name@, y.name@);
                    lemma_text_lt_total(ci.name@, x.name@);
                    if text_lt(ci.name@, x.name@) && text_lt(x.name@, y.name@) {
                        lemma_text_lt_trans(ci.name@, x.name@, y.name@);
                    }
                }
            }
            assert forall|k: int, l: int| 0 <= k < l < ns.len() implies cat_lt(cats@[#[trigger] ns[k] as int], cats@[#[trigger] ns[l] as int]) by {
                if l < p {
                } else if l == p {
                } else if k < p {
                    let x = cats@[old_out[k] as int];
                    let y = cats@[old_out[l - 1] as int];
                    assert(cat_lt(x, ci));
                    assert(cat_lt(ci, y));
                    if text_lt(x.name@, ci.name@) && text_lt(ci.name@, y.name@) {
                        lemma_text_lt_trans(x.name@, ci.name@, y.name@);
                    }
                } else if k == p {
                } else {
                    assert(cat_lt(cats@[old_out[k - 1] as int], cats@[old_out[l - 1] as int]));
                }
            }
            assert forall|m: int| 0 <= m < i + 1 implies #[trigger] ns.contains(m as usize) by {
                if m == i {
                    assert(ns[p as int] == m);
                } else {
                    assert(old_out.contains(m as usize));
                    let k = choose|k: int| 0 <= k < old_out.len() && old_out[k] == m as usize;
                    if k < p {
                        assert(ns[k] == m);
                    } else {
                        assert(ns[k + 1] == m);
                    }
                }
            }
        }
        out = next;
        i = i + 1;
    }
    out
}

} // verus!
