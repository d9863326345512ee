//! Removing rows by flag, and what removal keeps of a table's shape.
use vstd::prelude::*;
use crate::position::{slots, slots_wf, positions_in_range, unique_ids, Positioned, Slot};

verus! {

/// The rows of `s` whose flag in `keep` is set, in their order.
pub open spec fn select<T>(s: Seq<T>, keep: Seq<bool>) -> Seq<T>
    decreases s.len(),
{
    if s.len() == 0 || keep.len() == 0 {
        Seq::empty()
    } else {
        let rest = select(s.skip(1), keep.skip(1));
        if keep[0] {
            seq![s[0]] + rest
        } else {
            rest
        }
    }
}

/// The rows of `s` for which `p` holds, in their order.
pub open spec fn keep_where<T>(s: Seq<T>, p: spec_fn(T) -> bool) -> Seq<T> {
    select(s, Seq::new(s.len(), |i: int| p(s[i])))
}

/// Removes the rows whose flag is clear, keeping the order of the rest.
pub fn retain_flagged<T>(rows: &mut Vec<T>, keep: &Vec<bool>)
    requires
        keep@.len() == old(rows)@.len(),
    ensures
        final(rows)@ == select(old(rows)@, keep@),
{
    let ghost orig = rows@;
    let mut i: usize = rows.len();
    assert(orig.skip(i as int) =~= Seq::<T>::empty());
    assert(orig.take(i as int) =~= orig);
    assert(rows@ =~= orig.take(i as int) + select(orig.skip(i as int), keep@.skip(i as int)));
    while i > 0
        invariant
            i <= orig.len(),
            keep@.len() == orig.len(),
            rows@ == orig.take(i as int) + select(orig.skip(i as int), keep@.skip(i as int)),
        decreases i,
    {
        let j = i - 1;
        let ghost rest = select(orig.skip(i as int), keep@.skip(i as int));
        assert(orig.skip(j as int).skip(1) =~= orig.skip(i as int));
        assert(keep@.skip(j as int).skip(1) =~= keep@.skip(i as int));
        assert(orig.skip(j as int)[0] == orig[j as int]);
        assert(orig.take(i as int) =~= orig.take(j as int).push(orig[j as int]));
        let ghost before = rows@;
        assert(before =~= orig.take(j as int).push(orig[j as int]) + rest);
        if !keep[j] {
            rows.remove(j);
            assert(rows@ == before.remove(j as int));
            assert forall|k: int| 0 <= k < rows@.len() implies rows@[k] == (orig.take(j as int) + rest)[k] by {
                if k < j {
                    assert(rows@[k] == before[k]);
                } else {
                    assert(rows@[k] == before[k + 1]);
                }
            }
            assert(rows@ =~= orig.take(j as int) + rest);
        } else {
            assert(rows@ =~= orig.take(j as int) + (seq![orig[j as int]] + rest));
        }
        i = j;
    }
    assert(orig.take(0) =~= Seq::<T>::empty());
    assert(orig.skip(0) =~= orig);
    assert(keep@.skip(0) =~= keep@);
    assert(rows@ =~= select(orig, keep@));
}

pub proof fn lemma_select_len<T>(s: Seq<T>, keep: Seq<bool>)
    ensures
        select(s, keep).len() <= s.len(),
    decreases s.len(),
{
    if s.len() > 0 && keep.len() > 0 {
        lemma_select_len(s.skip(1), keep.skip(1));
    }
}

/// What is kept was there, and kept exactly where its flag is set.
pub proof fn lemma_select_contains<T>(s: Seq<T>, keep: Seq<bool>)
    requires
        keep.len() == s.len(),
    ensures
        forall|x: T| select(s, keep).contains(x) ==> s.contains(x),
        forall|i: int| 0 <= i < s.len() && keep[i] ==> select(s, keep).contains(#[trigger] s[i]),
        forall|x: T| select(s, keep).contains(x) ==> exists|i: int| 0 <= i < s.len() && keep[i] && s[i] == x,
    decreases s.len(),
{
    if s.len() > 0 {
        let rest = select(s.skip(1), keep.skip(1));
        lemma_select_contains(s.skip(1), keep.skip(1));
        assert forall|x: T| select(s, keep).contains(x) implies s.contains(x) by {
            if keep[0] && x == s[0] {
                assert(s[0] == x);
            } else {
                assert(rest.contains(x)) by {
                    if keep[0] {
                        let k = choose|k: int| 0 <= k < select(s, keep).len() && select(s, keep)[k] == x;
                        assert(k > 0);
                        assert(rest[k - 1] == x);
                    }
                }
                let j = choose|j: int| 0 <= j < s.skip(1).len() && s.skip(1)[j] == x;
                assert(s[j + 1] == x);
            }
        }
        assert forall|i: int| 0 <= i < s.len() && keep[i] implies select(s, keep).contains(#[trigger] s[i]) by {
            if i == 0 {
                assert(select(s, keep)[0] == s[0]);
            } else {
                assert(s.skip(1)[i - 1] == s[i]);
                assert(keep.skip(1)[i - 1] == keep[i]);
                assert(rest.contains(s[i]));
                let k = choose|k: int| 0 <= k < rest.len() && rest[k] == s[i];
                if keep[0] {
                    assert(select(s, keep)[k + 1] == s[i]);
                } else {
                    assert(select(s, keep)[k] == s[i]);
                }
            }
        }
        assert forall|x: T| select(s, keep).contains(x) implies exists|i: int| 0 <= i < s.len() && keep[i] && s[i] == x by {
            if keep[0] && x == s[0] {
                assert(keep[0] && s[0] == x);
            } else {
                assert(rest.contains(x)) by {
                    if keep[0] {
                        let k = choose|k: int| 0 <= k < select(s, keep).len() && select(s, keep)[k] == x;
                        assert(k > 0);
                        assert(rest[k - 1] == x);
                    }
                }
                let j = choose|j: int| 0 <= j < s.skip(1).len() && keep.skip(1)[j] && s.skip(1)[j] == x;
                assert(keep[j + 1] && s[j + 1] == x);
            }
        }
    }
}

/// What `keep_where` keeps satisfies the predicate, and every row of `s`
/// that satisfies it is kept.
pub proof fn lemma_keep_where<T>(s: Seq<T>, p: spec_fn(T) -> bool)
    ensures
        forall|x: T| #[trigger] keep_where(s, p).contains(x) <==> s.contains(x) && p(x),
{
    let keep = Seq::new(s.len(), |i: int| p(s[i]));
    lemma_select_contains(s, keep);
    assert forall|x: T| keep_where(s, p).contains(x) implies s.contains(x) && p(x) by {
        let i = choose|i: int| 0 <= i < s.len() && keep[i] && s[i] == x;
    }
    assert forall|x: T| s.contains(x) && p(x) implies keep_where(s, p).contains(x) by {
        let i = choose|i: int| 0 <= i < s.len() && s[i] == x;
        assert(keep[i]);
    }
}

pub proof fn lemma_select_slots<T: Positioned>(rows: Seq<T>, keep: Seq<bool>)
    ensures
        slots(select(rows, keep)) == select(slots(rows), keep),
    decreases rows.len(),
{
    if rows.len() > 0 && keep.len() > 0 {
        lemma_select_slots(rows.skip(1), keep.skip(1));
        assert(slots(rows.skip(1)) =~= slots(rows).skip(1));
        let rest = select(rows.skip(1), keep.skip(1));
        if keep[0] {
            assert(slots(seq![rows[0]] + rest) =~= seq![rows[0].slot()] + slots(rest));
        }
    } else {
        assert(slots(select(rows, keep)) =~= select(slots(rows), keep));
    }
}

/// Removing rows keeps ids unique and positions in range.
pub proof fn lemma_select_wf(ss: Seq<Slot>, keep: Seq<bool>)
    requires
        keep.len() == ss.len(),
        slots_wf(ss),
    ensures
        slots_wf(select(ss, keep)),
        select(ss, keep).len() <= ss.len(),
        forall|k: int| 0 <= k < select(ss, keep).len() ==> ss.contains(#[trigger] select(ss, keep)[k]),
    decreases ss.len(),
{
    lemma_select_len(ss, keep);
    lemma_select_contains(ss, keep);
    let t = select(ss, keep);
    assert forall|k: int| 0 <= k < t.len() implies ss.contains(#[trigger] t[k]) by {
        assert(t.contains(t[k]));
    }
    if ss.len() > 0 {
        let rest = select(ss.skip(1), keep.skip(1));
        assert(slots_wf(ss.skip(1))) by {
            assert forall|i: int, j: int| 0 <= i < ss.skip(1).len() && 0 <= j < ss.skip(1).len() && i != j implies
                ss.skip(1)[i].id != ss.skip(1)[j].id by {
                assert(ss.skip(1)[i] == ss[i + 1] && ss.skip(1)[j] == ss[j + 1]);
            }
            assert forall|i: int| 0 <= i < ss.skip(1).len() implies 0 <= #[trigger] ss.skip(1)[i].position <= crate::position::POSITION_LIMIT by {
                assert(ss.skip(1)[i] == ss[i + 1]);
            }
        }
        lemma_select_wf(ss.skip(1), keep.skip(1));
        assert forall|i: int, j: int| 0 <= i < t.len() && 0 <= j < t.len() && i != j implies t[i].id != t[j].id by {
            if keep[0] {
                if i == 0 && j > 0 {
                    assert(t[j] == rest[j - 1]);
                    assert(ss.skip(1).contains(rest[j - 1]));
                    let m = choose|m: int| 0 <= m < ss.skip(1).len() && ss.skip(1)[m] == rest[j - 1];
                    assert(ss[m + 1] == t[j]);
                } else if j == 0 && i > 0 {
                    assert(t[i] == rest[i - 1]);
                    assert(ss.skip(1).contains(rest[i - 1]));
                    let m = choose|m: int| 0 <= m < ss.skip(1).len() && ss.skip(1)[m] == rest[i - 1];
                    assert(ss[m + 1] == t[i]);
                } else if i > 0 && j > 0 {
                    assert(t[i] == rest[i - 1] && t[j] == rest[j - 1]);
                }
            }
        }
        assert forall|k: int| 0 <= k < t.len() implies 0 <= #[trigger] t[k].position <= crate::position::POSITION_LIMIT by {
            let m = choose|m: int| 0 <= m < ss.len() && ss[m] == t[k];
        }
    }
}

/// Selection commutes with a row-wise map.
pub proof fn lemma_select_map<T, U>(s: Seq<T>, keep: Seq<bool>, f: spec_fn(T) -> U)
    ensures
        Seq::new(select(s, keep).len(), |i: int| f(select(s, keep)[i])) == select(
            Seq::new(s.len(), |i: int| f(s[i])),
            keep,
        ),
    decreases s.len(),
{
    let m = Seq::new(s.len(), |i: int| f(s[i]));
    if s.len() > 0 && keep.len() > 0 {
        lemma_select_map(s.skip(1), keep.skip(1), f);
        assert(Seq::new(s.skip(1).len(), |i: int| f(s.skip(1)[i])) =~= m.skip(1));
        let rest = select(s.skip(1), keep.skip(1));
        if keep[0] {
            assert(Seq::new((seq![s[0]] + rest).len(), |i: int| f((seq![s[0]] + rest)[i])) =~= seq![f(s[0])]
                + Seq::new(rest.len(), |i: int| f(rest[i])));
        }
    } else {
        assert(Seq::new(select(s, keep).len(), |i: int| f(select(s, keep)[i])) =~= select(m, keep));
    }
}

} // verus!
