//! Properties that relate the store's operations, proved over the spec
//! functions that their contracts use.
use vstd::prelude::*;
use crate::hierarchy::{chain_reaches, descends, lemma_chain_is_cycle, lemma_reach_within, parent_check, reach, Walk};
use crate::ledger::{is_terminal, new_record, valid_shape};
use crate::models::{Command, ExecutionHistory, Group, Status};
use crate::position::{
    has_id, index_of, before, exhausted, fresh_position, lemma_rank_bound, lower, max_position, midpoint, moved, rank,
    renumbered, slots, slots_wf, upper, Slot, ID_LIMIT, POSITION_GAP, POSITION_LIMIT,
};
use crate::retain::{keep_where, lemma_keep_where};
use crate::store::{in_groups, outside_subtree};

verus! {

/// Counting siblings that come first is monotone in the order.
pub proof fn lemma_rank_monotone(ss: Seq<Slot>, parent: Option<i64>, a: Slot, b: Slot, n: int)
    requires
        before(a, b),
        0 <= n <= ss.len(),
    ensures
        rank(ss, parent, a, n) <= rank(ss, parent, b, n),
        forall|i: int| 0 <= i < n && ss[i] == a && ss[i].parent == parent ==> rank(ss, parent, a, n) + 1 <= rank(ss, parent, b, n),
    decreases n,
{
    if n > 0 {
        lemma_rank_monotone(ss, parent, a, b, n - 1);
    }
}

/// Renumbering orders the siblings by position, then id, and leaves at
/// least a gap between any two of them.
pub proof fn law_renumber_keeps_order(ss: Seq<Slot>, parent: Option<i64>, i: int, j: int)
    requires
        slots_wf(ss),
        0 <= i < ss.len(),
        0 <= j < ss.len(),
        i != j,
        ss[i].parent == parent,
        ss[j].parent == parent,
    ensures
        before(ss[i], ss[j]) <==> renumbered(ss, parent)[i].position < renumbered(ss, parent)[j].position,
        before(ss[i], ss[j]) ==> renumbered(ss, parent)[i].position + POSITION_GAP <= renumbered(ss, parent)[j].position,
        renumbered(ss, parent)[i].position >= POSITION_GAP,
{
    let n = ss.len() as int;
    lemma_rank_bound(ss, parent, ss[i], n);
    lemma_rank_bound(ss, parent, ss[j], n);
    assert(ss[i].id != ss[j].id);
    if before(ss[i], ss[j]) {
        lemma_rank_monotone(ss, parent, ss[i], ss[j], n);
    } else {
        assert(before(ss[j], ss[i]));
        lemma_rank_monotone(ss, parent, ss[j], ss[i], n);
    }
}

/// A move changes the relative order of no two other members of the
/// moved row's sibling set.
pub proof fn law_move_keeps_order(ss: Seq<Slot>, item: int, prev: Option<int>, next: Option<int>, k: int, l: int)
    requires
        slots_wf(ss),
        0 <= item < ss.len(),
        0 <= k < ss.len(),
        0 <= l < ss.len(),
        k != item,
        l != item,
        k != l,
        ss[k].parent == ss[item].parent,
        ss[l].parent == ss[item].parent,
    ensures
        before(ss[k], ss[l]) <==> before(moved(ss, item, prev, next)[k], moved(ss, item, prev, next)[l]),
{
    if exhausted(ss, prev, next) {
        law_renumber_keeps_order(ss, ss[item].parent, k, l);
        law_renumber_keeps_order(ss, ss[item].parent, l, k);
    }
}

/// A row moved between two other siblings, the first before the second,
/// lands strictly between them.
pub proof fn law_move_lands_between(ss: Seq<Slot>, item: int, a: int, b: int)
    requires
        slots_wf(ss),
        0 <= item < ss.len(),
        0 <= a < ss.len(),
        0 <= b < ss.len(),
        item != a,
        item != b,
        a != b,
        ss[a].parent == ss[item].parent,
        ss[b].parent == ss[item].parent,
        before(ss[a], ss[b]),
    ensures
        before(moved(ss, item, Some(a), Some(b))[a], moved(ss, item, Some(a), Some(b))[item]),
        before(moved(ss, item, Some(a), Some(b))[item], moved(ss, item, Some(a), Some(b))[b]),
{
    if exhausted(ss, Some(a), Some(b)) {
        law_renumber_keeps_order(ss, ss[item].parent, a, b);
        let rs = renumbered(ss, ss[item].parent);
        assert(lower(rs, Some(a)) + POSITION_GAP <= upper(rs, Some(a), Some(b)));
    }
}

/// Moving to the top, before the first of the other siblings, puts the row
/// first, right before that sibling.
pub proof fn law_move_to_top(ss: Seq<Slot>, item: int, b: int, j: int)
    requires
        slots_wf(ss),
        0 <= item < ss.len(),
        0 <= b < ss.len(),
        0 <= j < ss.len(),
        item != b,
        j != b,
        j != item,
        ss[b].parent == ss[item].parent,
        ss[j].parent == ss[item].parent,
        forall|m: int| 0 <= m < ss.len() && m != item && m != b && ss[m].parent == ss[item].parent ==> before(ss[b], #[trigger] ss[m]),
    ensures
        before(moved(ss, item, None, Some(b))[item], moved(ss, item, None, Some(b))[b]),
        before(moved(ss, item, None, Some(b))[b], moved(ss, item, None, Some(b))[j]),
{
    assert(before(ss[b], ss[j]));
    law_move_keeps_order(ss, item, None, Some(b), b, j);
    if exhausted(ss, None, Some(b)) {
        law_renumber_keeps_order(ss, ss[item].parent, b, j);
        lemma_rank_bound(ss, ss[item].parent, ss[b], ss.len() as int);
        let rs = renumbered(ss, ss[item].parent);
        assert(rs[b].position >= POSITION_GAP);
        assert(midpoint(rs, None, Some(b)) == rs[b].position / 2);
    } else {
        assert(0 <= ss[b].position);
        assert(midpoint(ss, None, Some(b)) == ss[b].position / 2);
    }
}

/// Moving to the bottom, after the last of the other siblings, puts the
/// row last, right after that sibling.
pub proof fn law_move_to_bottom(ss: Seq<Slot>, item: int, a: int, j: int)
    requires
        slots_wf(ss),
        0 <= item < ss.len(),
        0 <= a < ss.len(),
        0 <= j < ss.len(),
        item != a,
        j != a,
        j != item,
        ss[a].parent == ss[item].parent,
        ss[j].parent == ss[item].parent,
        forall|m: int| 0 <= m < ss.len() && m != item && m != a && ss[m].parent == ss[item].parent ==> before(#[trigger] ss[m], ss[a]),
    ensures
        before(moved(ss, item, Some(a), None)[a], moved(ss, item, Some(a), None)[item]),
        before(moved(ss, item, Some(a), None)[j], moved(ss, item, Some(a), None)[a]),
{
    assert(before(ss[j], ss[a]));
    law_move_keeps_order(ss, item, Some(a), None, j, a);
    if exhausted(ss, Some(a), None) {
        law_renumber_keeps_order(ss, ss[item].parent, j, a);
        law_renumber_keeps_order(ss, ss[item].parent, a, j);
        lemma_rank_bound(ss, ss[item].parent, ss[a], ss.len() as int);
        let rs = renumbered(ss, ss[item].parent);
        assert(rs[a].position <= (ss.len() + 1) * POSITION_GAP);
        assert(midpoint(rs, Some(a), None) == rs[a].position + 500);
    } else {
        assert(midpoint(ss, Some(a), None) == ss[a].position + 500);
    }
}

pub proof fn lemma_max_position_is_max(ss: Seq<Slot>, parent: Option<i64>, n: int, i: int)
    requires
        0 <= i < n <= ss.len(),
        ss[i].parent == parent,
    ensures
        ss[i].position <= max_position(ss, parent, n),
    decreases n,
{
    if i < n - 1 {
        lemma_max_position_is_max(ss, parent, n - 1, i);
    }
}

/// A new row's position is above every position of its sibling set: it
/// comes last.
pub proof fn law_create_goes_last(ss: Seq<Slot>, parent: Option<i64>, i: int)
    requires
        0 <= i < ss.len(),
        ss[i].parent == parent,
    ensures
        ss[i].position < fresh_position(ss, parent),
{
    lemma_max_position_is_max(ss, parent, ss.len() as int, i);
}

/// A group cannot take as parent itself or a group whose parent chain
/// leads back to it: the check reports a cycle.
pub proof fn law_no_cycles(gs: Seq<Slot>, group_id: i64, parent_id: i64, k: nat)
    requires
        chain_reaches(gs, parent_id, group_id, k),
    ensures
        parent_check(gs, group_id, parent_id) == Walk::Cycle,
{
    if group_id != parent_id {
        lemma_chain_is_cycle(gs, parent_id, group_id, k, (gs.len() + 1) as nat);
    }
}

/// After a group deletion the groups that remain are exactly those that are
/// neither the deleted group nor its descendants (through any number of
/// parent links), every remaining command sits in a remaining group (or in
/// none), and every command whose group remains is kept.
pub proof fn law_group_delete_cascades(
    old_groups: Seq<Group>,
    new_groups: Seq<Group>,
    old_commands: Seq<Command>,
    new_commands: Seq<Command>,
    id: i64,
)
    requires
        crate::position::unique_ids(slots(old_groups)),
        new_groups == keep_where(old_groups, outside_subtree(slots(old_groups), id)),
        new_commands == keep_where(old_commands, in_groups(new_groups)),
    ensures
        forall|g: Group| new_groups.contains(g) <==> old_groups.contains(g) && !descends(slots(old_groups), g.id, id),
        forall|g: Group, k: nat| new_groups.contains(g) ==> !chain_reaches(slots(old_groups), g.id, id, k),
        forall|c: Command| new_commands.contains(c) && c.group_id is Some ==> exists|g: Group| new_groups.contains(g) && g.id == c.group_id.unwrap(),
        forall|c: Command| old_commands.contains(c) && (c.group_id is None || has_id(slots(new_groups), c.group_id.unwrap()))
            ==> new_commands.contains(c),
{
    let pg = outside_subtree(slots(old_groups), id);
    let pc = in_groups(new_groups);
    lemma_keep_where(old_groups, pg);
    lemma_keep_where(old_commands, pc);
    assert forall|g: Group, k: nat| new_groups.contains(g) implies !chain_reaches(slots(old_groups), g.id, id, k) by {
        assert(keep_where(old_groups, pg).contains(g));
        assert(pg(g));
        if chain_reaches(slots(old_groups), g.id, id, k) {
            lemma_chain_reach(slots(old_groups), g.id, id, k);
            lemma_reach_within(slots(old_groups), g.id, id, k);
        }
    }
    assert forall|c: Command| new_commands.contains(c) && c.group_id is Some implies exists|g: Group| new_groups.contains(g) && g.id == c.group_id.unwrap() by {
        assert(keep_where(old_commands, pc).contains(c));
        assert(pc(c));
        assert(crate::position::opt_exists(slots(new_groups), c.group_id));
        let i = choose|i: int| 0 <= i < slots(new_groups).len() && slots(new_groups)[i].id == c.group_id.unwrap();
        assert(new_groups.contains(new_groups[i]));
        assert(new_groups[i].id == c.group_id.unwrap());
    }
    assert forall|c: Command| old_commands.contains(c) && (c.group_id is None || has_id(slots(new_groups), c.group_id.unwrap()))
        implies new_commands.contains(c) by {
        assert(pc(c));
        assert(keep_where(old_commands, pc).contains(c));
    }
}

/// A chain of exactly `k` links is a chain of at most `k` links.
pub proof fn lemma_chain_reach(gs: Seq<Slot>, from: i64, target: i64, k: nat)
    requires
        chain_reaches(gs, from, target, k),
    ensures
        reach(gs, from, target, k),
    decreases k,
{
    if k > 0 && from != target {
        lemma_chain_reach(gs, gs[index_of(gs, from)].parent.unwrap(), target, (k - 1) as nat);
    }
}

/// A category deletion leaves every command in place, with the deleted
/// category taken off it.
pub proof fn law_category_delete_nulls(old_commands: Seq<Command>, new_commands: Seq<Command>, id: i64)
    requires
        new_commands.len() == old_commands.len(),
        forall|k: int| 0 <= k < old_commands.len() ==> #[trigger] new_commands[k] == (if old_commands[k].category_id == Some(id) {
            Command { category_id: None, ..old_commands[k] }
        } else {
            old_commands[k]
        }),
    ensures
        forall|k: int| 0 <= k < new_commands.len() ==> (#[trigger] new_commands[k]).id == old_commands[k].id
            && new_commands[k].category_id != Some(id) && new_commands[k].name == old_commands[k].name,
{
}

/// A record starts running with no completion time; ending it once puts it
/// in a terminal status, after which it is no longer running and cannot be
/// ended again. Cancelling is ending with `cancelled` and no exit code.
pub proof fn law_record_lifecycle(h: ExecutionHistory, id: i64, now: u64, status: Status, exit_code: Option<i32>)
    requires
        is_terminal(status),
    ensures
        new_record(h, id, now).status == Status::Running,
        new_record(h, id, now).completed_at is None,
        crate::ledger::finalized(new_record(h, id, now), status, exit_code, now).status == status,
        crate::ledger::finalized(new_record(h, id, now), status, exit_code, now).completed_at == Some(now),
        crate::ledger::finalized(new_record(h, id, now), status, exit_code, now).status != Status::Running,
        is_terminal(Status::Cancelled),
        crate::ledger::finalized(h, Status::Cancelled, None, now) == (ExecutionHistory {
            status: Status::Cancelled,
            exit_code: None,
            completed_at: Some(now),
            ..h
        }),
{
}

/// A record naming a command and a workflow without a step, or a step
/// without both its command and its workflow, has no valid shape.
pub proof fn law_invalid_shapes(c: Option<i64>, w: Option<i64>, s: Option<i64>)
    ensures
        c is Some && w is Some && s is None ==> !valid_shape(c, w, s),
        s is Some && (c is None || w is None) ==> !valid_shape(c, w, s),
{
}

} // verus!
