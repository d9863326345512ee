//! The hierarchy guard: a group's parent chain must never loop back.
use vstd::prelude::*;
use crate::error::{DatabaseError, Result};
use crate::models::Group;
use crate::position::{find_row, has_id, index_of, lemma_index_of, slots, unique_ids, Slot, ID_LIMIT};
use crate::store::GROUPS_TABLE;

verus! {

/// How a walk up the parent chain ends.
pub enum Walk {
    /// A root was reached.
    Safe,
    /// The target was met, or the walk took more steps than there are groups.
    Cycle,
    /// A group on the chain does not exist.
    Missing(i64),
}

/// Follows parent links from `cur`, looking for `target`, for at most `fuel` links.
pub open spec fn walk(gs: Seq<Slot>, cur: Option<i64>, target: i64, fuel: nat) -> Walk
    decreases fuel,
{
    match cur {
        None => Walk::Safe,
        Some(c) => if c == target {
            Walk::Cycle
        } else if fuel == 0 {
            Walk::Cycle
        } else if !has_id(gs, c) {
            Walk::Missing(c)
        } else {
            walk(gs, gs[index_of(gs, c)].parent, target, (fuel - 1) as nat)
        },
    }
}

/// The verdict on making `parent_id` the parent of `group_id`.
pub open spec fn parent_check(gs: Seq<Slot>, group_id: i64, parent_id: i64) -> Walk {
    if group_id == parent_id {
        Walk::Cycle
    } else {
        walk(gs, Some(parent_id), group_id, (gs.len() + 1) as nat)
    }
}

/// `target` is reached from `from` by following exactly `k` parent links.
pub open spec fn chain_reaches(gs: Seq<Slot>, from: i64, target: i64, k: nat) -> bool
    decreases k,
{
    if k == 0 {
        from == target
    } else {
        has_id(gs, from) && gs[index_of(gs, from)].parent is Some && chain_reaches(
            gs,
            gs[index_of(gs, from)].parent.unwrap(),
            target,
            (k - 1) as nat,
        )
    }
}

pub open spec fn circular<T>(r: Result<T>, group_id: i64, parent_id: i64) -> bool {
    r matches Err(DatabaseError::CircularReference { group_id: g, parent_id: p }) && g == group_id && p
        == parent_id
}

/// Rejects `parent_id` as the parent of `group_id` when the parent chain
/// from `parent_id` meets `group_id` (or loops on its own), and reports a
/// group on the chain that does not exist.
pub fn validate_no_circular_reference(groups: &Vec<Group>, group_id: i64, parent_id: i64) -> (r:
    Result<()>)
    requires
        unique_ids(slots(groups@)),
        groups@.len() < ID_LIMIT,
    ensures
        parent_check(slots(groups@), group_id, parent_id) == Walk::Safe ==> r is Ok,
        parent_check(slots(groups@), group_id, parent_id) == Walk::Cycle ==> circular(
            r,
            group_id,
            parent_id,
        ),
        parent_check(slots(groups@), group_id, parent_id) matches Walk::Missing(x) ==> not_found_group(
            r,
            x,
        ),
{
    let ghost gs = slots(groups@);
    if group_id == parent_id {
        return Err(DatabaseError::CircularReference { group_id, parent_id });
    }
    let mut current: Option<i64> = Some(parent_id);
    let mut fuel: u64 = groups.len() as u64 + 1;
    while current.is_some()
        invariant
            gs == slots(groups@),
            unique_ids(gs),
            group_id != parent_id,
            walk(gs, Some(parent_id), group_id, (gs.len() + 1) as nat) == walk(
                gs,
                current,
                group_id,
                fuel as nat,
            ),
        decreases fuel,
    {
        let id = current.unwrap();
        if id == group_id || fuel == 0 {
            return Err(DatabaseError::CircularReference { group_id, parent_id });
        }
        match find_row(groups, id) {
            None => return Err(DatabaseError::NotFound { entity: GROUPS_TABLE, id }),
            Some(i) => {
                current = groups[i].parent_group_id;
            },
        }
        fuel = fuel - 1;
    }
    Ok(())
}

pub open spec fn not_found_group<T>(r: Result<T>, id: i64) -> bool {
    r matches Err(DatabaseError::NotFound { entity: e, id: x }) && e == GROUPS_TABLE && x == id
}

/// A group that the parent chain of `parent_id` reaches, `parent_id` itself
/// included, is refused as `parent_id`'s child: the check reports a cycle.
pub proof fn lemma_chain_is_cycle(gs: Seq<Slot>, from: i64, target: i64, k: nat, fuel: nat)
    requires
        chain_reaches(gs, from, target, k),
    ensures
        walk(gs, Some(from), target, fuel) == Walk::Cycle,
    decreases k,
{
    if from != target && fuel > 0 && k > 0 {
        let p = gs[index_of(gs, from)].parent.unwrap();
        lemma_chain_is_cycle(gs, p, target, (k - 1) as nat, (fuel - 1) as nat);
    }
}


/// `x` is `root` or reaches it by at most `fuel` parent links.
pub open spec fn reach(gs: Seq<Slot>, x: i64, root: i64, fuel: nat) -> bool
    decreases fuel,
{
    x == root || (fuel > 0 && has_id(gs, x) && gs[index_of(gs, x)].parent is Some && reach(
        gs,
        gs[index_of(gs, x)].parent.unwrap(),
        root,
        (fuel - 1) as nat,
    ))
}

/// `x` is `root` or one of its descendants: a chain of parent links no
/// longer than the number of groups leads from `x` to `root`.
pub open spec fn descends(gs: Seq<Slot>, x: i64, root: i64) -> bool {
    reach(gs, x, root, gs.len() as nat)
}

/// For each group, whether it is `root` or a descendant of it.
pub fn mark_descendants(groups: &Vec<Group>, root: i64) -> (marked: Vec<bool>)
    requires
        unique_ids(slots(groups@)),
        has_id(slots(groups@), root),
    ensures
        marked@.len() == groups@.len(),
        forall|i: int| 0 <= i < groups@.len() ==> marked@[i] == descends(slots(groups@), groups@[i].id, root),
{
    let ghost gs = slots(groups@);
    let n = groups.len();
    let mut marked: Vec<bool> = Vec::new();
    let mut i: usize = 0;
    while i < n
        invariant
            n == groups@.len(),
            gs == slots(groups@),
            i <= n,
            marked@.len() == i,
            forall|k: int| 0 <= k < i ==> marked@[k] == reach(gs, groups@[k].id, root, 0),
        decreases n - i,
    {
        marked.push(groups[i].id == root);
        i = i + 1;
    }
    let mut round: usize = 0;
    while round < n
        invariant
            n == groups@.len(),
            gs == slots(groups@),
            unique_ids(gs),
            has_id(gs, root),
            round <= n,
            marked@.len() == n,
            forall|k: int| 0 <= k < n ==> marked@[k] == reach(gs, groups@[k].id, root, round as nat),
        decreases n - round,
    {
        let mut next: Vec<bool> = Vec::new();
        let mut j: usize = 0;
        while j < n
            invariant
                n == groups@.len(),
                gs == slots(groups@),
                unique_ids(gs),
                has_id(gs, root),
                round < n,
                j <= n,
                marked@.len() == n,
                next@.len() == j,
                forall|k: int| 0 <= k < n ==> marked@[k] == reach(gs, groups@[k].id, root, round as nat),
                forall|k: int| 0 <= k < j ==> next@[k] == reach(gs, groups@[k].id, root, (round + 1) as nat),
            decreases n - j,
        {
            let g = &groups[j];
            proof {
                lemma_index_of(gs, j as int);
                assert(gs[j as int].id == groups@[j as int].id);
                assert(gs[j as int].parent == groups@[j as int].parent_group_id);
            }
            let mut hit = g.id == root;
            if !hit {
                if let Some(p) = g.parent_group_id {
                    match find_row(groups, p) {
                        Some(k) => {
                            hit = marked[k];
                        },
                        None => {
                            assert(p != root);
                            assert(!reach(gs, p, root, round as nat));
                        },
                    }
                }
            }
            next.push(hit);
            j = j + 1;
        }
        marked = next;
        round = round + 1;
    }
    marked
}

/// One step up: the parent of an existing group, else nothing.
pub open spec fn up(gs: Seq<Slot>, cur: Option<i64>) -> Option<i64> {
    match cur {
        Some(y) => if has_id(gs, y) {
            gs[index_of(gs, y)].parent
        } else {
            None
        },
        None => None,
    }
}

/// The ancestor `i` steps up from `cur`.
pub open spec fn ancestor(gs: Seq<Slot>, cur: Option<i64>, i: nat) -> Option<i64>
    decreases i,
{
    if i == 0 {
        cur
    } else {
        up(gs, ancestor(gs, cur, (i - 1) as nat))
    }
}

pub proof fn lemma_ancestor_compose(gs: Seq<Slot>, cur: Option<i64>, a: nat, t: nat)
    ensures
        ancestor(gs, cur, a + t) == ancestor(gs, ancestor(gs, cur, a), t),
    decreases t,
{
    if t > 0 {
        lemma_ancestor_compose(gs, cur, a, (t - 1) as nat);
        assert((a + t - 1) as nat == (a + (t - 1)) as nat);
    }
}

pub proof fn lemma_ancestor_none(gs: Seq<Slot>, i: nat)
    ensures
        ancestor(gs, None, i) is None,
    decreases i,
{
    if i > 0 {
        lemma_ancestor_none(gs, (i - 1) as nat);
    }
}

/// Before a present ancestor, every ancestor is an existing group.
pub proof fn lemma_ancestor_prefix(gs: Seq<Slot>, cur: Option<i64>, i: nat, k: nat)
    requires
        ancestor(gs, cur, i) is Some,
        k < i,
    ensures
        ancestor(gs, cur, k) is Some,
        has_id(gs, ancestor(gs, cur, k).unwrap()),
    decreases i,
{
    let prev = ancestor(gs, cur, (i - 1) as nat);
    assert(prev is Some && has_id(gs, prev.unwrap()));
    if k < i - 1 {
        lemma_ancestor_prefix(gs, cur, (i - 1) as nat, k);
    }
}

/// `reach` is: some ancestor within `fuel` steps is `root`.
pub proof fn lemma_reach_ancestor(gs: Seq<Slot>, x: i64, root: i64, fuel: nat)
    ensures
        reach(gs, x, root, fuel) <==> exists|i: nat| i <= fuel && #[trigger] ancestor(gs, Some(x), i) == Some(root),
    decreases fuel,
{
    if x == root {
        assert(ancestor(gs, Some(x), 0) == Some(root));
    } else if fuel == 0 {
        if exists|i: nat| i <= fuel && #[trigger] ancestor(gs, Some(x), i) == Some(root) {
            let i = choose|i: nat| i <= fuel && #[trigger] ancestor(gs, Some(x), i) == Some(root);
            assert(i == 0);
        }
    } else {
        if reach(gs, x, root, fuel) {
            let p = gs[index_of(gs, x)].parent.unwrap();
            lemma_reach_ancestor(gs, p, root, (fuel - 1) as nat);
            let i = choose|i: nat| i <= fuel - 1 && #[trigger] ancestor(gs, Some(p), i) == Some(root);
            lemma_ancestor_compose(gs, Some(x), 1, i);
            assert(ancestor(gs, Some(x), 1) == Some(p));
            assert(ancestor(gs, Some(x), 1 + i) == Some(root));
        }
        if exists|i: nat| i <= fuel && #[trigger] ancestor(gs, Some(x), i) == Some(root) {
            let i = choose|i: nat| i <= fuel && #[trigger] ancestor(gs, Some(x), i) == Some(root);
            assert(i > 0);
            lemma_ancestor_compose(gs, Some(x), 1, (i - 1) as nat);
            let one = ancestor(gs, Some(x), 1);
            assert(one == up(gs, Some(x)));
            if one is None {
                lemma_ancestor_none(gs, (i - 1) as nat);
            } else {
                let p = one.unwrap();
                assert(has_id(gs, x));
                lemma_reach_ancestor(gs, p, root, (fuel - 1) as nat);
                assert(ancestor(gs, Some(p), (i - 1) as nat) == Some(root));
            }
        }
    }
}

/// An ancestor that is reached at all is reached within as many steps as
/// there are groups: a longer chain repeats a group and can be shortened.
pub proof fn lemma_ancestor_short(gs: Seq<Slot>, cur: Option<i64>, root: i64, i: nat)
    requires
        unique_ids(gs),
        ancestor(gs, cur, i) == Some(root),
    ensures
        exists|j: nat| j <= gs.len() && #[trigger] ancestor(gs, cur, j) == Some(root),
    decreases i,
{
    let n = gs.len();
    if i > n {
        let path = Seq::new((n + 1) as nat, |j: int| ancestor(gs, cur, j as nat).unwrap());
        let ids = Seq::new(n as nat, |k: int| gs[k].id);
        assert forall|j: int| 0 <= j < path.len() implies ids.to_set().contains(#[trigger] path[j]) by {
            lemma_ancestor_prefix(gs, cur, i, j as nat);
            let k = choose|k: int| 0 <= k < gs.len() && gs[k].id == path[j];
            assert(ids[k] == path[j]);
        }
        ids.lemma_cardinality_of_set();
        if path.no_duplicates() {
            path.unique_seq_to_set();
            assert(path.to_set().subset_of(ids.to_set()));
            vstd::set_lib::lemma_len_subset(path.to_set(), ids.to_set());
            assert(false);
        }
        let (a, b) = choose|a: int, b: int| 0 <= a < path.len() && 0 <= b < path.len() && a != b && path[a] == path[b];
        let (lo, hi) = if a < b { (a, b) } else { (b, a) };
        lemma_ancestor_prefix(gs, cur, i, lo as nat);
        lemma_ancestor_prefix(gs, cur, i, hi as nat);
        assert(ancestor(gs, cur, lo as nat) == ancestor(gs, cur, hi as nat));
        let t = (i - hi) as nat;
        lemma_ancestor_compose(gs, cur, hi as nat, t);
        lemma_ancestor_compose(gs, cur, lo as nat, t);
        assert((hi + t) as nat == i);
        lemma_ancestor_short(gs, cur, root, (lo + t) as nat);
    } else {
        assert(ancestor(gs, cur, i) == Some(root));
    }
}

/// A group that descends from `root` through any number of links does so
/// within as many links as there are groups.
pub proof fn lemma_reach_within(gs: Seq<Slot>, x: i64, root: i64, fuel: nat)
    requires
        unique_ids(gs),
        reach(gs, x, root, fuel),
    ensures
        descends(gs, x, root),
{
    lemma_reach_ancestor(gs, x, root, fuel);
    let i = choose|i: nat| i <= fuel && #[trigger] ancestor(gs, Some(x), i) == Some(root);
    lemma_ancestor_short(gs, Some(x), root, i);
    lemma_reach_ancestor(gs, x, root, gs.len() as nat);
}

/// When the chain from `cur` comes back to a group it passed, every
/// ancestor exists: the chain never ends.
pub proof fn lemma_loop_never_ends(gs: Seq<Slot>, cur: Option<i64>, a: nat, b: nat, i: nat)
    requires
        a < b,
        ancestor(gs, cur, a) == ancestor(gs, cur, b),
        ancestor(gs, cur, b) is Some,
    ensures
        ancestor(gs, cur, i) is Some,
        has_id(gs, ancestor(gs, cur, i).unwrap()),
    decreases i,
{
    if i < b {
        lemma_ancestor_prefix(gs, cur, b, i);
    } else if i == b {
        lemma_ancestor_prefix(gs, cur, b, a);
    } else {
        let d = (b - a) as nat;
        let t = (i - b) as nat;
        lemma_ancestor_compose(gs, cur, b, t);
        lemma_ancestor_compose(gs, cur, a, t);
        assert((a + t) as nat == (i - d) as nat);
        lemma_loop_never_ends(gs, cur, a, b, (i - d) as nat);
    }
}

/// A walk that ends in a root or at a missing group passes an ancestor
/// that is no group.
pub proof fn lemma_walk_end(gs: Seq<Slot>, cur: Option<i64>, target: i64, fuel: nat)
    requires
        walk(gs, cur, target, fuel) != Walk::Cycle,
    ensures
        exists|i: nat| #[trigger] ancestor(gs, cur, i) is None || !has_id(gs, ancestor(gs, cur, i).unwrap()),
    decreases fuel,
{
    if cur is None {
        assert(ancestor(gs, cur, 0) is None);
    } else {
        let c = cur.unwrap();
        if !has_id(gs, c) {
            assert(!has_id(gs, ancestor(gs, cur, 0).unwrap()));
        } else {
            let next = gs[index_of(gs, c)].parent;
            lemma_walk_end(gs, next, target, (fuel - 1) as nat);
            let i = choose|i: nat| #[trigger] ancestor(gs, next, i) is None || !has_id(gs, ancestor(gs, next, i).unwrap());
            lemma_ancestor_compose(gs, cur, 1, i);
            assert(ancestor(gs, cur, 1) == next);
            assert(ancestor(gs, cur, 1 + i) is None || !has_id(gs, ancestor(gs, cur, 1 + i).unwrap()));
        }
    }
}

/// A parent whose chain comes back to a group it already passed is refused
/// as a cycle, whatever group asks for it.
pub proof fn law_revisit_is_cycle(gs: Seq<Slot>, group_id: i64, parent_id: i64, a: nat, b: nat)
    requires
        a < b,
        ancestor(gs, Some(parent_id), a) == ancestor(gs, Some(parent_id), b),
        ancestor(gs, Some(parent_id), b) is Some,
    ensures
        parent_check(gs, group_id, parent_id) == Walk::Cycle,
{
    if group_id != parent_id && walk(gs, Some(parent_id), group_id, (gs.len() + 1) as nat) != Walk::Cycle {
        lemma_walk_end(gs, Some(parent_id), group_id, (gs.len() + 1) as nat);
        let i = choose|i: nat| #[trigger] ancestor(gs, Some(parent_id), i) is None || !has_id(gs, ancestor(gs, Some(parent_id), i).unwrap());
        lemma_loop_never_ends(gs, Some(parent_id), a, b, i);
    }
}

} // verus!
