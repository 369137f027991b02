//! The order in which persons are seated, as mathematics: each person in
//! turn joins the open table that costs least, the first of them where
//! several cost the same.

use crate::assignor::{occupied_upto, prefix_sum, total, Seating};
use crate::costs::{row_cost, Costed, Weight};
use crate::graph::Row;
use vstd::prelude::*;

verus! {

/// The table exists and has a free seat.
pub open spec fn open_table(s: Seating, t: int) -> bool {
    0 <= t < s.tables.len() && !s.full(t)
}

/// The cost for the person of joining the table as it stands.
pub open spec fn join_cost(s: Seating, rows: Seq<Row>, values: Seq<Weight>, p: u32, t: int) -> int {
    row_cost(rows[p as int], s.tables[t], values)
}

/// Joining `t` costs less than joining `u`, or the same and `t` comes no
/// later.
pub open spec fn no_worse(
    s: Seating,
    rows: Seq<Row>,
    values: Seq<Weight>,
    p: u32,
    t: int,
    u: int,
) -> bool {
    join_cost(s, rows, values, p, t) < join_cost(s, rows, values, p, u) || (join_cost(
        s,
        rows,
        values,
        p,
        t,
    ) == join_cost(s, rows, values, p, u) && t <= u)
}

/// The table is open and no open table among the first `n` is better.
pub open spec fn best_among(
    s: Seating,
    rows: Seq<Row>,
    values: Seq<Weight>,
    p: u32,
    n: int,
    t: int,
) -> bool {
    &&& open_table(s, t)
    &&& t < n
    &&& forall|u: int| 0 <= u < n && #[trigger] open_table(s, u) ==> no_worse(s, rows, values, p, t, u)
}

/// The table is the open table that costs the person least, the first of
/// them where several cost the same.
pub open spec fn is_best(s: Seating, rows: Seq<Row>, values: Seq<Weight>, p: u32, t: int) -> bool {
    best_among(s, rows, values, p, s.tables.len() as int, t)
}

/// The table that the person is sent to: the best open table, and the
/// first table where none is open.
pub open spec fn best_table(s: Seating, rows: Seq<Row>, values: Seq<Weight>, p: u32) -> int {
    if exists|t: int| is_best(s, rows, values, p, t) {
        choose|t: int| is_best(s, rows, values, p, t)
    } else {
        0
    }
}

/// The seating after the person's turn.
pub open spec fn place(s: Seating, rows: Seq<Row>, values: Seq<Weight>, p: u32) -> Seating {
    let t = best_table(s, rows, values, p);
    if 0 <= t < s.tables.len() && s.can_seat(p, t) {
        s.seat(p, t)
    } else {
        s
    }
}

/// The seating after the turns of the first `k` persons.
pub open spec fn run(s: Seating, rows: Seq<Row>, values: Seq<Weight>, k: nat) -> Seating
    decreases k,
{
    if k == 0 {
        s
    } else {
        place(run(s, rows, values, (k - 1) as nat), rows, values, (k - 1) as u32)
    }
}

/// At most one table is the best.
pub proof fn lemma_best_unique(
    s: Seating,
    rows: Seq<Row>,
    values: Seq<Weight>,
    p: u32,
    t1: int,
    t2: int,
)
    requires
        is_best(s, rows, values, p, t1),
        is_best(s, rows, values, p, t2),
    ensures
        t1 == t2,
{
    assert(no_worse(s, rows, values, p, t1, t2));
    assert(no_worse(s, rows, values, p, t2, t1));
}

/// Where one of the first `n` tables is open, one of them is the best
/// among them.
pub proof fn lemma_best_among(s: Seating, rows: Seq<Row>, values: Seq<Weight>, p: u32, n: int)
    requires
        0 <= n <= s.tables.len(),
    ensures
        (exists|u: int| 0 <= u < n && open_table(s, u)) ==> exists|t: int|
            best_among(s, rows, values, p, n, t),
    decreases n,
{
    if n > 0 {
        let last = n - 1;
        lemma_best_among(s, rows, values, p, last);
        if exists|u: int| 0 <= u < last && open_table(s, u) {
            let t = choose|t: int| best_among(s, rows, values, p, last, t);
            if open_table(s, last) && !no_worse(s, rows, values, p, t, last) {
                assert forall|u: int| 0 <= u < n && #[trigger] open_table(s, u) implies no_worse(
                    s,
                    rows,
                    values,
                    p,
                    last,
                    u,
                ) by {
                    if u < last {
                        assert(no_worse(s, rows, values, p, t, u));
                    }
                }
                assert(best_among(s, rows, values, p, n, last));
            } else {
                assert(best_among(s, rows, values, p, n, t));
            }
        } else if open_table(s, last) {
            assert(best_among(s, rows, values, p, n, last));
        }
    }
}

/// Where a table is open, the person is sent to an open table.
pub proof fn lemma_best_is_open(s: Seating, rows: Seq<Row>, values: Seq<Weight>, p: u32)
    requires
        exists|u: int| open_table(s, u),
    ensures
        is_best(s, rows, values, p, best_table(s, rows, values, p)),
        open_table(s, best_table(s, rows, values, p)),
{
    let n = s.tables.len() as int;
    lemma_best_among(s, rows, values, p, n);
    let u = choose|u: int| open_table(s, u);
    assert(0 <= u < n && open_table(s, u));
    let t = choose|t: int| best_among(s, rows, values, p, n, t);
    assert(is_best(s, rows, values, p, t));
}

/// Seating one more person at a table adds one to the count of the seated.
pub proof fn lemma_seat_count(tables: Seq<Seq<u32>>, t: int, p: u32, n: int)
    requires
        0 <= t < tables.len(),
        0 <= n <= tables.len(),
    ensures
        occupied_upto(tables.update(t, tables[t].push(p)), n) == occupied_upto(tables, n) + if t
            < n {
            1int
        } else {
            0int
        },
    decreases n,
{
    if n > 0 {
        lemma_seat_count(tables, t, p, n - 1);
    }
}

/// Nobody is seated at tables that are all empty.
pub proof fn lemma_empty_count(tables: Seq<Seq<u32>>, n: int)
    requires
        0 <= n <= tables.len(),
        forall|t: int| 0 <= t < tables.len() ==> (#[trigger] tables[t]).len() == 0,
    ensures
        occupied_upto(tables, n) == 0,
    decreases n,
{
    if n > 0 {
        lemma_empty_count(tables, n - 1);
    }
}

/// Where fewer persons are seated at the first `n` tables than these have
/// seats, one of them has a free seat.
pub proof fn lemma_some_table_open(s: Seating, n: int)
    requires
        s.valid(),
        0 <= n <= s.tables.len(),
        occupied_upto(s.tables, n) < prefix_sum(s.capacities, n),
    ensures
        exists|t: int| 0 <= t < n && open_table(s, t),
    decreases n,
{
    if n > 0 {
        if s.tables[n - 1].len() < s.capacities[n - 1] {
            assert(open_table(s, n - 1));
        } else {
            lemma_some_table_open(s, n - 1);
            let t = choose|t: int| 0 <= t < n - 1 && open_table(s, t);
            assert(open_table(s, t));
        }
    }
}

/// Seating a person who is not seated yet at a table with a free seat
/// leaves the seating valid.
pub proof fn lemma_seat_valid(s: Seating, p: u32, t: int)
    requires
        s.valid(),
        p < s.n_persons,
        0 <= t < s.tables.len(),
        s.can_seat(p, t),
    ensures
        s.seat(p, t).valid(),
{
    let r = s.seat(p, t);
    assert forall|t1: int, i1: int, t2: int, i2: int|
        0 <= t1 < r.tables.len() && 0 <= i1 < r.tables[t1].len() && 0 <= t2 < r.tables.len() && 0
            <= i2 < r.tables[t2].len() && #[trigger] r.tables[t1][i1]
            == #[trigger] r.tables[t2][i2] implies t1 == t2 && i1 == i2 by {
        let new1 = t1 == t && i1 == s.tables[t].len();
        let new2 = t2 == t && i2 == s.tables[t].len();
        if new1 && !new2 {
            assert(s.tables[t2][i2] == p);
            assert(s.sits_at(p, t2));
        } else if new2 && !new1 {
            assert(s.tables[t1][i1] == p);
            assert(s.sits_at(p, t1));
        } else if !new1 && !new2 {
            assert(s.tables[t1][i1] == s.tables[t2][i2]);
        }
    }
    assert forall|u: int, i: int| 0 <= u < r.tables.len() && 0 <= i < r.tables[u].len() implies (
    #[trigger] r.tables[u][i]) < r.n_persons by {
        if !(u == t && i == s.tables[t].len()) {
            assert(s.tables[u][i] < s.n_persons);
        }
    }
}

/// A person's turn leaves a valid seating valid, and the tables and the
/// persons what they were.
pub proof fn lemma_place_valid(s: Seating, rows: Seq<Row>, values: Seq<Weight>, p: u32)
    requires
        s.valid(),
        p < s.n_persons,
    ensures
        place(s, rows, values, p).valid(),
        place(s, rows, values, p).capacities == s.capacities,
        place(s, rows, values, p).n_persons == s.n_persons,
{
    let t = best_table(s, rows, values, p);
    if 0 <= t < s.tables.len() && s.can_seat(p, t) {
        lemma_seat_valid(s, p, t);
    }
}

/// The turns of the first `k` persons leave a valid seating valid.
pub proof fn lemma_run_valid(s: Seating, rows: Seq<Row>, values: Seq<Weight>, k: nat)
    requires
        s.valid(),
        k <= s.n_persons,
        s.n_persons <= u32::MAX,
    ensures
        run(s, rows, values, k).valid(),
        run(s, rows, values, k).capacities == s.capacities,
        run(s, rows, values, k).n_persons == s.n_persons,
    decreases k,
{
    if k > 0 {
        lemma_run_valid(s, rows, values, (k - 1) as nat);
        lemma_place_valid(run(s, rows, values, (k - 1) as nat), rows, values, (k - 1) as u32);
    }
}

/// Started with nobody seated, and with a seat for each of the first `k`
/// persons, their turns seat exactly these persons.
pub proof fn lemma_run_seats_all(
    capacities: Seq<u32>,
    n_persons: nat,
    rows: Seq<Row>,
    values: Seq<Weight>,
    k: nat,
)
    requires
        k <= n_persons <= u32::MAX,
        k <= total(capacities),
    ensures
        run(Seating::empty(capacities, n_persons), rows, values, k).valid(),
        run(Seating::empty(capacities, n_persons), rows, values, k).seated_count() == k,
        forall|p: u32|
            run(Seating::empty(capacities, n_persons), rows, values, k).seated(p) <==> p < k,
    decreases k,
{
    let start = Seating::empty(capacities, n_persons);
    assert(start.valid());
    lemma_run_valid(start, rows, values, k);
    if k == 0 {
        lemma_empty_count(start.tables, start.tables.len() as int);
        assert forall|p: u32| !start.seated(p) by {
            if start.seated(p) {
                let t = choose|t: int| start.sits_at(p, t);
                assert(start.tables[t].len() == 0);
            }
        }
    } else {
        let before = run(start, rows, values, (k - 1) as nat);
        let p = (k - 1) as u32;
        lemma_run_seats_all(capacities, n_persons, rows, values, (k - 1) as nat);
        lemma_run_valid(start, rows, values, (k - 1) as nat);
        lemma_some_table_open(before, before.tables.len() as int);
        lemma_best_is_open(before, rows, values, p);
        let t = best_table(before, rows, values, p);
        let after = before.seat(p, t);
        assert(!before.seated(p));
        assert(after == run(start, rows, values, k));
        lemma_seat_count(before.tables, t, p, before.tables.len() as int);
        assert forall|q: u32| after.seated(q) <==> q < k by {
            if before.seated(q) {
                let u = choose|u: int| before.sits_at(q, u);
                let i = choose|i: int| 0 <= i < before.tables[u].len() && before.tables[u][i] == q;
                assert(after.tables[u][i] == q);
                assert(after.sits_at(q, u));
            }
            if q == p {
                assert(after.tables[t][before.tables[t].len() as int] == p);
                assert(after.sits_at(p, t));
            }
            if after.seated(q) && q != p {
                let u = choose|u: int| after.sits_at(q, u);
                let i = choose|i: int| 0 <= i < after.tables[u].len() && after.tables[u][i] == q;
                assert(before.tables[u][i] == q);
                assert(before.sits_at(q, u));
            }
        }
    }
}

/// The seating and the tables' costs after the person's turn: where the
/// person takes a seat, the table runs up the cost of joining it.
pub open spec fn place_costed(c: Costed, p: u32) -> Costed {
    let t = best_table(c.seating, c.rows, c.values, p);
    if 0 <= t < c.seating.tables.len() && c.seating.can_seat(p, t) {
        c.seat(p, t, join_cost(c.seating, c.rows, c.values, p, t))
    } else {
        c
    }
}

/// The seating and the tables' costs after the turns of the first `k`
/// persons.
pub open spec fn run_costed(c: Costed, k: nat) -> Costed
    decreases k,
{
    if k == 0 {
        c
    } else {
        place_costed(run_costed(c, (k - 1) as nat), (k - 1) as u32)
    }
}

/// The turns seat the persons as `run` says, and leave relations and
/// weights as they were.
pub proof fn lemma_run_costed(c: Costed, k: nat)
    ensures
        run_costed(c, k).seating == run(c.seating, c.rows, c.values, k),
        run_costed(c, k).rows == c.rows,
        run_costed(c, k).values == c.values,
    decreases k,
{
    if k > 0 {
        lemma_run_costed(c, (k - 1) as nat);
    }
}

} // verus!
