//! The positioning engine: integer positions that order the members of a
//! sibling set, assigned on creation and moved by midpoints, with a
//! renumbering when a gap is used up.
use vstd::prelude::*;
use crate::error::{DatabaseError, Result};

verus! {

/// Spacing between fresh positions.
pub const POSITION_GAP: i64 = 1000;

/// Positions stay within `0 ..= POSITION_LIMIT`.
pub const POSITION_LIMIT: i64 = 0x1000_0000_0000_0000;

/// Ids are allocated below this bound, and no table holds more rows.
pub const ID_LIMIT: i64 = 0x100_0000_0000;

/// What the positioning engine sees of a row.
#[derive(Clone, Copy)]
pub struct Slot {
    pub id: i64,
    pub parent: Option<i64>,
    pub position: i64,
}

/// A row that belongs to a sibling set and carries a position in it.
pub trait Positioned: Sized {
    spec fn slot(&self) -> Slot;

    /// The same row with another position.
    spec fn with_position(&self, p: i64) -> Self;

    proof fn lemma_with_position(&self, p: i64)
        ensures
            self.with_position(p).slot() == (Slot { position: p, ..self.slot() }),
            self.slot().position == p ==> self.with_position(p) == *self,
            forall|q: i64| #[trigger] self.with_position(p).with_position(q) == self.with_position(q),
    ;

    fn id(&self) -> (r: i64)
        ensures
            r == self.slot().id,
    ;

    fn parent(&self) -> (r: Option<i64>)
        ensures
            r == self.slot().parent,
    ;

    fn position(&self) -> (r: i64)
        ensures
            r == self.slot().position,
    ;

    fn set_position(&mut self, p: i64)
        ensures
            *final(self) == old(self).with_position(p),
    ;
}

pub open spec fn slots<T: Positioned>(rows: Seq<T>) -> Seq<Slot> {
    Seq::new(rows.len(), |i: int| rows[i].slot())
}

pub open spec fn has_id(ss: Seq<Slot>, id: i64) -> bool {
    exists|i: int| 0 <= i < ss.len() && ss[i].id == id
}

/// The index of the row with the given id (meaningful when it exists).
pub open spec fn index_of(ss: Seq<Slot>, id: i64) -> int {
    choose|i: int| 0 <= i < ss.len() && ss[i].id == id
}

pub open spec fn unique_ids(ss: Seq<Slot>) -> bool {
    forall|i: int, j: int|
        0 <= i < ss.len() && 0 <= j < ss.len() && i != j ==> ss[i].id != ss[j].id
}

pub open spec fn positions_in_range(ss: Seq<Slot>) -> bool {
    forall|i: int| 0 <= i < ss.len() ==> 0 <= #[trigger] ss[i].position <= POSITION_LIMIT
}

/// What the engine needs of a table: unique ids, positions in range, and
/// fewer rows than ids could be handed out.
pub open spec fn slots_wf(ss: Seq<Slot>) -> bool {
    &&& unique_ids(ss)
    &&& positions_in_range(ss)
    &&& ss.len() < ID_LIMIT
}

/// The order of a sibling set: by position, then by id.
pub open spec fn before(a: Slot, b: Slot) -> bool {
    a.position < b.position || (a.position == b.position && a.id < b.id)
}

/// How many siblings among the first `n` rows come before `s`.
pub open spec fn rank(ss: Seq<Slot>, parent: Option<i64>, s: Slot, n: int) -> nat
    decreases n,
{
    if n <= 0 {
        0
    } else if ss[n - 1].parent == parent && before(ss[n - 1], s) {
        rank(ss, parent, s, n - 1) + 1
    } else {
        rank(ss, parent, s, n - 1)
    }
}

/// The set after renumbering: each sibling gets (rank + 1) * gap, others keep theirs.
pub open spec fn renumbered(ss: Seq<Slot>, parent: Option<i64>) -> Seq<Slot> {
    Seq::new(
        ss.len(),
        |i: int|
            if ss[i].parent == parent {
                Slot {
                    position: ((rank(ss, parent, ss[i], ss.len() as int) + 1) * POSITION_GAP) as i64,
                    ..ss[i]
                }
            } else {
                ss[i]
            },
    )
}

/// The largest position among the first `n` siblings, or -1.
pub open spec fn max_position(ss: Seq<Slot>, parent: Option<i64>, n: int) -> int
    decreases n,
{
    if n <= 0 {
        -1
    } else {
        let m = max_position(ss, parent, n - 1);
        if ss[n - 1].parent == parent && ss[n - 1].position > m {
            ss[n - 1].position as int
        } else {
            m
        }
    }
}

/// The position a new sibling gets: gap + (largest sibling position, or -1) + 1.
pub open spec fn fresh_position(ss: Seq<Slot>, parent: Option<i64>) -> int {
    POSITION_GAP + max_position(ss, parent, ss.len() as int) + 1
}

/// The table as creation leaves it before the insert: renumbered only when
/// the fresh position would leave the range.
pub open spec fn before_insert(ss: Seq<Slot>, parent: Option<i64>) -> Seq<Slot> {
    if fresh_position(ss, parent) > POSITION_LIMIT {
        renumbered(ss, parent)
    } else {
        ss
    }
}

/// The lower bound of a move: the previous neighbour's position, or 0.
pub open spec fn lower(ss: Seq<Slot>, prev: Option<int>) -> int {
    match prev {
        Some(i) => ss[i].position as int,
        None => 0,
    }
}

/// The upper bound of a move: the next neighbour's position, or lower + gap.
pub open spec fn upper(ss: Seq<Slot>, prev: Option<int>, next: Option<int>) -> int {
    match next {
        Some(j) => ss[j].position as int,
        None => lower(ss, prev) + POSITION_GAP,
    }
}

pub open spec fn midpoint(ss: Seq<Slot>, prev: Option<int>, next: Option<int>) -> int {
    (lower(ss, prev) + upper(ss, prev, next)) / 2
}

/// No room is left between the bounds (or the midpoint leaves the range).
pub open spec fn exhausted(ss: Seq<Slot>, prev: Option<int>, next: Option<int>) -> bool {
    let m = midpoint(ss, prev, next);
    m == lower(ss, prev) || m == upper(ss, prev, next) || m > POSITION_LIMIT
}

/// The table after moving row `item` between the rows `prev` and `next`.
pub open spec fn moved(ss: Seq<Slot>, item: int, prev: Option<int>, next: Option<int>) -> Seq<Slot> {
    let base = if exhausted(ss, prev, next) {
        renumbered(ss, ss[item].parent)
    } else {
        ss
    };
    base.update(item, Slot { position: midpoint(base, prev, next) as i64, ..base[item] })
}

/// `after` holds the rows of `before` with positions taken from `ss`.
pub open spec fn repositioned<T: Positioned>(before: Seq<T>, after: Seq<T>, ss: Seq<Slot>) -> bool {
    &&& after.len() == before.len()
    &&& ss.len() == before.len()
    &&& forall|i: int| 0 <= i < before.len() ==> #[trigger] after[i] == before[i].with_position(ss[i].position)
}

pub proof fn lemma_slots_repositioned<T: Positioned>(before: Seq<T>, after: Seq<T>, ss: Seq<Slot>)
    requires
        repositioned(before, after, ss),
        forall|i: int| 0 <= i < ss.len() ==> ss[i].id == (#[trigger] before[i].slot()).id
            && ss[i].parent == before[i].slot().parent,
    ensures
        slots(after) == ss,
{
    assert forall|i: int| 0 <= i < ss.len() implies slots(after)[i] == ss[i] by {
        before[i].lemma_with_position(ss[i].position);
    }
    assert(slots(after) =~= ss);
}

pub proof fn lemma_index_of(ss: Seq<Slot>, i: int)
    requires
        unique_ids(ss),
        0 <= i < ss.len(),
    ensures
        has_id(ss, ss[i].id),
        index_of(ss, ss[i].id) == i,
{
    assert(has_id(ss, ss[i].id));
}

/// Finds the row with the given id.
pub fn find_row<T: Positioned>(rows: &Vec<T>, id: i64) -> (r: Option<usize>)
    requires
        unique_ids(slots(rows@)),
    ensures
        r is None <==> !has_id(slots(rows@), id),
        r matches Some(i) ==> i < rows@.len() && rows@[i as int].slot().id == id
            && index_of(slots(rows@), id) == i,
{
    let mut i: usize = 0;
    while i < rows.len()
        invariant
            i <= rows@.len(),
            unique_ids(slots(rows@)),
            forall|k: int| 0 <= k < i ==> rows@[k].slot().id != id,
        decreases rows@.len() - i,
    {
        if rows[i].id() == id {
            proof {
                lemma_index_of(slots(rows@), i as int);
            }
            return Some(i);
        }
        i = i + 1;
    }
    proof {
        if has_id(slots(rows@), id) {
            let k = choose|k: int| 0 <= k < slots(rows@).len() && slots(rows@)[k].id == id;
            assert(rows@[k].slot().id == id);
        }
    }
    None
}


pub open spec fn not_found<T>(r: Result<T>, entity: &'static str, id: i64) -> bool {
    r matches Err(DatabaseError::NotFound { entity: e, id: x }) && e == entity && x == id
}

pub open spec fn invalid<T>(r: Result<T>, field: &'static str) -> bool {
    r matches Err(DatabaseError::InvalidData { field: f, .. }) && f == field
}

/// The index of the row that an optional id names.
pub open spec fn opt_index(ss: Seq<Slot>, id: Option<i64>) -> Option<int> {
    match id {
        Some(x) => Some(index_of(ss, x)),
        None => None,
    }
}

pub open spec fn opt_exists(ss: Seq<Slot>, id: Option<i64>) -> bool {
    match id {
        Some(x) => has_id(ss, x),
        None => true,
    }
}

/// A named neighbour belongs to the sibling set `parent`.
pub open spec fn opt_in_set(ss: Seq<Slot>, id: Option<i64>, parent: Option<i64>) -> bool {
    match id {
        Some(x) => ss[index_of(ss, x)].parent == parent,
        None => true,
    }
}

pub proof fn lemma_rank_bound(ss: Seq<Slot>, parent: Option<i64>, s: Slot, n: int)
    requires
        0 <= n,
    ensures
        rank(ss, parent, s, n) <= n,
    decreases n,
{
    if n > 0 {
        lemma_rank_bound(ss, parent, s, n - 1);
    }
}

pub proof fn lemma_max_position_bound(ss: Seq<Slot>, parent: Option<i64>, n: int, bound: int)
    requires
        0 <= n <= ss.len(),
        -1 <= bound,
        forall|i: int| 0 <= i < n && ss[i].parent == parent ==> ss[i].position <= bound,
    ensures
        -1 <= max_position(ss, parent, n) <= bound,
    decreases n,
{
    if n > 0 {
        lemma_max_position_bound(ss, parent, n - 1, bound);
    }
}

fn same_parent(a: Option<i64>, b: Option<i64>) -> (r: bool)
    ensures
        r == (a == b),
{
    match (a, b) {
        (Some(x), Some(y)) => x == y,
        (None, None) => true,
        _ => false,
    }
}

/// Counts the siblings that come before row `i`.
fn rank_of<T: Positioned>(rows: &Vec<T>, parent: Option<i64>, i: usize) -> (r: u64)
    requires
        i < rows@.len(),
        rows@.len() < ID_LIMIT,
    ensures
        r == rank(slots(rows@), parent, rows@[i as int].slot(), rows@.len() as int),
{
    let ghost ss = slots(rows@);
    let p = rows[i].position();
    let id = rows[i].id();
    let mut c: u64 = 0;
    let mut j: usize = 0;
    while j < rows.len()
        invariant
            j <= rows@.len(),
            rows@.len() < ID_LIMIT,
            i < rows@.len(),
            ss == slots(rows@),
            p == rows@[i as int].slot().position,
            id == rows@[i as int].slot().id,
            c == rank(ss, parent, rows@[i as int].slot(), j as int),
            c <= j,
        decreases rows@.len() - j,
    {
        let q = rows[j].position();
        if same_parent(rows[j].parent(), parent) && (q < p || (q == p && rows[j].id() < id)) {
            c = c + 1;
        }
        j = j + 1;
    }
    c
}

/// Renumbers a sibling set: each member gets (rank + 1) * gap, in the
/// order by position and then id; other rows keep their positions.
pub fn renumber<T: Positioned>(rows: &mut Vec<T>, parent: Option<i64>)
    requires
        slots_wf(slots(old(rows)@)),
    ensures
        repositioned(old(rows)@, final(rows)@, renumbered(slots(old(rows)@), parent)),
        slots(final(rows)@) == renumbered(slots(old(rows)@), parent),
        slots_wf(slots(final(rows)@)),
{
    let ghost ss = slots(rows@);
    let ghost rs = renumbered(ss, parent);
    let n = rows.len();
    let mut fresh: Vec<i64> = Vec::new();
    let mut i: usize = 0;
    while i < n
        invariant
            n == rows@.len(),
            ss == slots(rows@),
            rs == renumbered(ss, parent),
            slots_wf(ss),
            i <= n,
            fresh@.len() == i,
            forall|k: int| 0 <= k < i ==> fresh@[k] == rs[k].position,
            forall|k: int| 0 <= k < i ==> 0 <= #[trigger] fresh@[k] <= POSITION_LIMIT,
        decreases n - i,
    {
        if same_parent(rows[i].parent(), parent) {
            let r = rank_of(rows, parent, i);
            proof {
                lemma_rank_bound(ss, parent, ss[i as int], n as int);
            }
            fresh.push(((r + 1) as i64) * POSITION_GAP);
        } else {
            fresh.push(rows[i].position());
        }
        i = i + 1;
    }
    let ghost orig = rows@;
    let mut k: usize = 0;
    while k < n
        invariant
            n == rows@.len(),
            orig.len() == n,
            fresh@.len() == n,
            ss == slots(orig),
            rs == renumbered(ss, parent),
            k <= n,
            forall|m: int| 0 <= m < n ==> fresh@[m] == rs[m].position,
            forall|m: int| 0 <= m < k ==> #[trigger] rows@[m] == orig[m].with_position(fresh@[m]),
            forall|m: int| k <= m < n ==> #[trigger] rows@[m] == orig[m],
        decreases n - k,
    {
        rows[k].set_position(fresh[k]);
        k = k + 1;
    }
    proof {
        assert(repositioned(orig, rows@, rs));
        lemma_slots_repositioned(orig, rows@, rs);
        assert(unique_ids(rs));
        assert(positions_in_range(rs)) by {
            assert forall|m: int| 0 <= m < rs.len() implies 0 <= #[trigger] rs[m].position <= POSITION_LIMIT by {
                assert(fresh@[m] == rs[m].position);
            }
        }
    }
}

/// The largest position among the siblings, or -1.
fn max_sibling_position<T: Positioned>(rows: &Vec<T>, parent: Option<i64>) -> (r: i64)
    requires
        positions_in_range(slots(rows@)),
    ensures
        r == max_position(slots(rows@), parent, rows@.len() as int),
        -1 <= r <= POSITION_LIMIT,
{
    let ghost ss = slots(rows@);
    let mut m: i64 = -1;
    let mut j: usize = 0;
    while j < rows.len()
        invariant
            j <= rows@.len(),
            ss == slots(rows@),
            positions_in_range(ss),
            m == max_position(ss, parent, j as int),
            -1 <= m <= POSITION_LIMIT,
        decreases rows@.len() - j,
    {
        let q = rows[j].position();
        if same_parent(rows[j].parent(), parent) && q > m {
            m = q;
        }
        j = j + 1;
    }
    m
}

/// The position for a new member of a sibling set. When that position would
/// leave the range the set is renumbered first.
pub fn next_position<T: Positioned>(rows: &mut Vec<T>, parent: Option<i64>) -> (p: i64)
    requires
        slots_wf(slots(old(rows)@)),
    ensures
        repositioned(old(rows)@, final(rows)@, before_insert(slots(old(rows)@), parent)),
        slots(final(rows)@) == before_insert(slots(old(rows)@), parent),
        slots_wf(slots(final(rows)@)),
        p == fresh_position(slots(final(rows)@), parent),
        POSITION_GAP <= p <= POSITION_LIMIT,
{
    let ghost ss = slots(rows@);
    let m = max_sibling_position(rows, parent);
    if m + POSITION_GAP + 1 > POSITION_LIMIT {
        renumber(rows, parent);
        let ghost rs = slots(rows@);
        proof {
            assert forall|i: int| 0 <= i < rs.len() && rs[i].parent == parent implies rs[i].position
                <= (ss.len() + 1) * POSITION_GAP by {
                lemma_rank_bound(ss, parent, ss[i], ss.len() as int);
                assert(rank(ss, parent, ss[i], ss.len() as int) + 1 <= ss.len() + 1);
            }
            lemma_max_position_bound(rs, parent, rs.len() as int, (ss.len() + 1) * POSITION_GAP);
        }
        let m2 = max_sibling_position(rows, parent);
        m2 + POSITION_GAP + 1
    } else {
        proof {
            assert(repositioned(rows@, rows@, ss)) by {
                assert forall|i: int| 0 <= i < rows@.len() implies #[trigger] rows@[i] == rows@[i].with_position(ss[i].position) by {
                    rows@[i].lemma_with_position(ss[i].position);
                }
            }
        }
        m + POSITION_GAP + 1
    }
}

/// Looks up an optional neighbour; a named one that does not exist is an error.
fn find_neighbour<T: Positioned>(rows: &Vec<T>, table: &'static str, id: Option<i64>) -> (r: Result<
    Option<usize>,
>)
    requires
        unique_ids(slots(rows@)),
    ensures
        id is None ==> r == Ok::<Option<usize>, DatabaseError>(None),
        id is Some ==> (has_id(slots(rows@), id.unwrap()) <==> r is Ok),
        id is Some && !has_id(slots(rows@), id.unwrap()) ==> not_found(r, table, id.unwrap()),
        r matches Ok(Some(k)) ==> id is Some && k < rows@.len() && k == index_of(slots(rows@), id.unwrap()),
        r matches Ok(o) ==> (o is Some <==> id is Some),
{
    match id {
        None => Ok(None),
        Some(x) => match find_row(rows, x) {
            None => Err(DatabaseError::NotFound { entity: table, id: x }),
            Some(k) => Ok(Some(k)),
        },
    }
}

fn bound_of<T: Positioned>(rows: &Vec<T>, k: Option<usize>, default: i64) -> (r: i64)
    requires
        k matches Some(i) ==> i < rows@.len(),
    ensures
        r == match k {
            Some(i) => rows@[i as int].slot().position,
            None => default,
        },
{
    match k {
        Some(i) => rows[i].position(),
        None => default,
    }
}

pub open spec fn to_int(k: Option<usize>) -> Option<int> {
    match k {
        Some(i) => Some(i as int),
        None => None,
    }
}

/// What a move leaves: each error on exactly its inputs with the rows
/// unchanged, and on success the rows repositioned as `moved` says.
pub open spec fn move_done<T: Positioned>(
    before: Seq<T>,
    after: Seq<T>,
    table: &'static str,
    item_id: i64,
    prev_id: Option<i64>,
    next_id: Option<i64>,
    r: Result<()>,
) -> bool {
    let ss = slots(before);
    let item = index_of(ss, item_id);
    let ok = has_id(ss, item_id) && !(prev_id is None && next_id is None) && opt_exists(ss, prev_id)
        && opt_exists(ss, next_id) && opt_in_set(ss, prev_id, ss[item].parent) && opt_in_set(
        ss,
        next_id,
        ss[item].parent,
    );
    &&& !has_id(ss, item_id) ==> not_found(r, table, item_id)
    &&& has_id(ss, item_id) && prev_id is None && next_id is None ==> invalid(r, "item_id")
    &&& has_id(ss, item_id) && prev_id is Some && !has_id(ss, prev_id.unwrap()) ==> not_found(
        r,
        table,
        prev_id.unwrap(),
    )
    &&& has_id(ss, item_id) && opt_exists(ss, prev_id) && next_id is Some && !has_id(ss, next_id.unwrap())
        ==> not_found(r, table, next_id.unwrap())
    &&& has_id(ss, item_id) && !(prev_id is None && next_id is None) && opt_exists(ss, prev_id)
        && opt_exists(ss, next_id) && !(opt_in_set(ss, prev_id, ss[item].parent) && opt_in_set(
        ss,
        next_id,
        ss[item].parent,
    )) ==> invalid(r, "parent_id")
    &&& r is Ok <==> ok
    &&& r is Err ==> after == before
    &&& ok ==> slots(after) == moved(ss, item, opt_index(ss, prev_id), opt_index(ss, next_id))
    &&& ok ==> repositioned(before, after, moved(ss, item, opt_index(ss, prev_id), opt_index(ss, next_id)))
    &&& slots_wf(slots(after))
}

/// Moves the row `item_id` between the rows `prev_id` and `next_id` of its
/// sibling set: no `prev_id` means to the top, no `next_id` to the bottom.
/// The new position is the midpoint of the neighbours' positions, where a
/// missing previous neighbour counts as 0 and a missing next one as the
/// previous position plus the gap. When no room is left the sibling set is
/// renumbered first.
pub fn move_item_between<T: Positioned>(
    rows: &mut Vec<T>,
    table: &'static str,
    item_id: i64,
    prev_id: Option<i64>,
    next_id: Option<i64>,
) -> (r: Result<()>)
    requires
        slots_wf(slots(old(rows)@)),
    ensures
        move_done(old(rows)@, final(rows)@, table, item_id, prev_id, next_id, r),
        slots_wf(slots(final(rows)@)),
{
    let ghost ss = slots(rows@);
    let item = match find_row(rows, item_id) {
        None => return Err(DatabaseError::NotFound { entity: table, id: item_id }),
        Some(i) => i,
    };
    if prev_id.is_none() && next_id.is_none() {
        return Err(
            DatabaseError::InvalidData {
                field: "item_id",
                reason: String::from_str("Invalid positions. Either prev_id or next_id must be provided"),
            },
        );
    }
    let prev = match find_neighbour(rows, table, prev_id) {
        Err(e) => return Err(e),
        Ok(k) => k,
    };
    let next = match find_neighbour(rows, table, next_id) {
        Err(e) => return Err(e),
        Ok(k) => k,
    };
    let parent = rows[item].parent();
    let prev_ok = match prev {
        Some(k) => same_parent(rows[k].parent(), parent),
        None => true,
    };
    let next_ok = match next {
        Some(k) => same_parent(rows[k].parent(), parent),
        None => true,
    };
    if !prev_ok || !next_ok {
        return Err(
            DatabaseError::InvalidData {
                field: "parent_id",
                reason: String::from_str("Invalid data, all items must be from the same parent"),
            },
        );
    }
    proof {
        assert(to_int(prev) == opt_index(ss, prev_id));
        assert(to_int(next) == opt_index(ss, next_id));
    }
    let lo = bound_of(rows, prev, 0);
    let hi = bound_of(rows, next, lo + POSITION_GAP);
    let mut mid = (lo + hi) / 2;
    if mid == lo || mid == hi || mid > POSITION_LIMIT {
        renumber(rows, parent);
        let ghost rs = slots(rows@);
        proof {
            assert forall|i: int| 0 <= i < rs.len() && ss[i].parent == parent implies #[trigger] rs[i].position
                <= (ss.len() + 1) * POSITION_GAP by {
                lemma_rank_bound(ss, parent, ss[i], ss.len() as int);
            }
        }
        let lo2 = bound_of(rows, prev, 0);
        let hi2 = bound_of(rows, next, lo2 + POSITION_GAP);
        mid = (lo2 + hi2) / 2;
    }
    let ghost base = slots(rows@);
    let ghost before_set = rows@;
    proof {
        if !exhausted(ss, to_int(prev), to_int(next)) {
            assert forall|i: int| 0 <= i < before_set.len() implies #[trigger] before_set[i]
                == old(rows)@[i].with_position(base[i].position) by {
                old(rows)@[i].lemma_with_position(base[i].position);
            }
        }
    }
    rows[item].set_position(mid);
    proof {
        let ms = base.update(item as int, Slot { position: mid, ..base[item as int] });
        assert(ms == moved(ss, item as int, to_int(prev), to_int(next)));
        assert forall|i: int| 0 <= i < rows@.len() implies #[trigger] rows@[i] == old(rows)@[i].with_position(
            ms[i].position,
        ) by {
            old(rows)@[i].lemma_with_position(base[i].position);
        }
        assert(repositioned(old(rows)@, rows@, ms));
        assert forall|i: int| 0 <= i < ms.len() implies ms[i].id == (#[trigger] old(rows)@[i].slot()).id
            && ms[i].parent == old(rows)@[i].slot().parent by {
            old(rows)@[i].lemma_with_position(base[i].position);
        }
        lemma_slots_repositioned(old(rows)@, rows@, ms);
    }
    Ok(())
}

} // verus!
