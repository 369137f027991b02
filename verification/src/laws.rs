//! What holds of every seating that the solver gives.

use crate::assignor::{total, Seating};
use crate::costs::Weight;
use crate::greedy::{lemma_run_seats_all, lemma_run_valid, run};
use crate::graph::{lemma_add_edge_holds, row_has, rows_add_edge, rows_wf};
use crate::model::{
    lemma_relation_at, lemma_relations_between_persons, lemma_relations_listed,
    lemma_relations_one_per_pair, noted_upto, notes, persons_of, related, relation_at,
    relations_from, relations_of, same_pair, tribe_wf, Assignment, RelationStrength, TableType,
    TribeView,
};
use crate::name_map::{
    ascending, has_key, index_of, lemma_index_of, lemma_put, lemma_rank_parts,
    lemma_same_key_set, lookup, put, rank,
};
use crate::names::{lemma_name_lt_irreflexive, name_lt};
use crate::solver::{
    assignment_view, dense_names, dense_sizes, lemma_seat_order_upto, lemma_split_exists, named,
    lemma_relation_rows, named_tables, place_of, relation_rows, rows_after, seat_counts,
    seat_order, seat_order_upto, solution, solved, AssignmentView, DenseTable, SolverError,
    SolverResult,
};
use vstd::prelude::*;

verus! {

/// The table at `i`, by name, as a dense table.
pub open spec fn entry(tables: Seq<(Seq<char>, TableType)>, i: int) -> DenseTable {
    (tables[i].0, tables[i].1.n_seats)
}

/// `x` has fewer seats than `y`, or as many and the earlier name.
pub open spec fn seat_lt(x: DenseTable, y: DenseTable) -> bool {
    x.1 < y.1 || (x.1 == y.1 && name_lt(x.0, y.0))
}

/// One of the first `n` tables is `x`.
pub open spec fn among_tables(tables: Seq<(Seq<char>, TableType)>, n: int, x: DenseTable) -> bool {
    exists|i: int| 0 <= i < n && #[trigger] entry(tables, i) == x
}

/// One of the dense tables is `x`.
pub open spec fn among_dense(order: Seq<DenseTable>, x: DenseTable) -> bool {
    exists|t: int| 0 <= t < order.len() && #[trigger] order[t] == x
}

/// `order` holds the first `n` tables, each once, ascending by seat count
/// and by name among tables with as many seats.
pub open spec fn is_seat_order(
    tables: Seq<(Seq<char>, TableType)>,
    order: Seq<DenseTable>,
    n: int,
) -> bool {
    &&& order.len() == n
    &&& forall|t: int| 0 <= t < n ==> among_tables(tables, n, #[trigger] order[t])
    &&& forall|i: int| 0 <= i < n ==> among_dense(order, #[trigger] entry(tables, i))
    &&& forall|t1: int, t2: int|
        0 <= t1 < t2 < n ==> seat_lt(#[trigger] order[t1], #[trigger] order[t2])
}

/// The dense order of the first `n` tables holds these tables, each once,
/// ascending by seat count and by name among tables with as many seats.
pub proof fn lemma_seat_order_is_sorted(tables: Seq<(Seq<char>, TableType)>, n: int)
    requires
        ascending(tables),
        0 <= n <= tables.len(),
    ensures
        is_seat_order(tables, seat_order_upto(tables, n), n),
    decreases n,
{
    lemma_seat_order_upto(tables, n);
    if n > 0 {
        lemma_seat_order_is_sorted(tables, n - 1);
        lemma_seat_order_upto(tables, n - 1);
        let before = seat_order_upto(tables, n - 1);
        let seats = tables[n - 1].1.n_seats;
        let last = entry(tables, n - 1);
        lemma_split_exists(before, seats);
        let j = place_of(before, seats);
        let after = seat_order_upto(tables, n);
        assert(after == before.insert(j, last));
        assert forall|t: int| 0 <= t < n implies among_tables(tables, n, #[trigger] after[t]) by {
            if t == j {
                assert(entry(tables, n - 1) == after[t]);
            } else {
                let ot = if t < j { t } else { t - 1 };
                assert(among_tables(tables, n - 1, before[ot]));
                let i = choose|i: int| 0 <= i < n - 1 && #[trigger] entry(tables, i) == before[ot];
                assert(entry(tables, i) == after[t]);
            }
        }
        assert forall|i: int| 0 <= i < n implies among_dense(
            after,
            #[trigger] entry(tables, i),
        ) by {
            if i == n - 1 {
                assert(after[j] == entry(tables, i));
            } else {
                assert(among_dense(before, entry(tables, i)));
                let ot = choose|t: int| 0 <= t < n - 1 && #[trigger] before[t] == entry(tables, i);
                let t = if ot < j { ot } else { ot + 1 };
                assert(after[t] == entry(tables, i));
            }
        }
        assert forall|t1: int, t2: int| 0 <= t1 < t2 < n implies seat_lt(
            #[trigger] after[t1],
            #[trigger] after[t2],
        ) by {
            let o1 = if t1 < j { t1 } else { t1 - 1 };
            let o2 = if t2 < j { t2 } else { t2 - 1 };
            if t1 == j {
                assert(before[o2].1 > seats);
            } else if t2 == j {
                assert(before[o1].1 <= seats);
                assert(among_tables(tables, n - 1, before[o1]));
                let i = choose|i: int| 0 <= i < n - 1 && #[trigger] entry(tables, i) == before[o1];
                assert(name_lt(tables[i].0, tables[n - 1].0));
            } else {
                assert(seat_lt(before[o1], before[o2]));
            }
        }
    }
}

/// One of the first `n` names is `key`.
pub open spec fn is_name_of(names: Seq<Seq<char>>, n: int, key: Seq<char>) -> bool {
    exists|t: int| 0 <= t < n && #[trigger] names[t] == key
}

/// The tables by dense index are the tables by name: every dense table is
/// a table with its seats, every table has a dense index, and no two dense
/// tables have one name.
pub proof fn lemma_dense_tables(tables: Seq<(Seq<char>, TableType)>)
    requires
        ascending(tables),
    ensures
        is_seat_order(tables, seat_order(tables), tables.len() as int),
        forall|t: int|
            0 <= t < tables.len() ==> lookup(tables, #[trigger] dense_names(tables)[t]) == Some(
                TableType { n_seats: dense_sizes(tables)[t] },
            ),
        forall|key: Seq<char>|
            has_key(tables, key) <==> is_name_of(dense_names(tables), tables.len() as int, key),
        forall|t1: int, t2: int|
            0 <= t1 < tables.len() && 0 <= t2 < tables.len() && #[trigger] dense_names(tables)[t1]
                == #[trigger] dense_names(tables)[t2] ==> t1 == t2,
{
    let n = tables.len() as int;
    let order = seat_order(tables);
    let names = dense_names(tables);
    lemma_seat_order_is_sorted(tables, n);
    assert forall|t: int| 0 <= t < n implies lookup(tables, #[trigger] names[t]) == Some(
        TableType { n_seats: dense_sizes(tables)[t] },
    ) by {
        assert(among_tables(tables, n, order[t]));
        let i = choose|i: int| 0 <= i < n && #[trigger] entry(tables, i) == order[t];
        lemma_index_of(tables, i);
    }
    assert forall|key: Seq<char>| has_key(tables, key) <==> is_name_of(names, n, key) by {
        if has_key(tables, key) {
            let i = index_of(tables, key);
            assert(among_dense(order, entry(tables, i)));
            let t = choose|t: int| 0 <= t < n && #[trigger] order[t] == entry(tables, i);
            assert(names[t] == key);
        }
        if is_name_of(names, n, key) {
            let t = choose|t: int| 0 <= t < n && #[trigger] names[t] == key;
            assert(among_tables(tables, n, order[t]));
            let i = choose|i: int| 0 <= i < n && #[trigger] entry(tables, i) == order[t];
            assert(tables[i].0 == key);
        }
    }
    assert forall|t1: int, t2: int|
        0 <= t1 < n && 0 <= t2 < n && #[trigger] names[t1] == #[trigger] names[t2] implies t1
        == t2 by {
        assert(among_tables(tables, n, order[t1]));
        assert(among_tables(tables, n, order[t2]));
        let i1 = choose|i: int| 0 <= i < n && #[trigger] entry(tables, i) == order[t1];
        let i2 = choose|i: int| 0 <= i < n && #[trigger] entry(tables, i) == order[t2];
        lemma_index_of(tables, i1);
        lemma_index_of(tables, i2);
        assert(order[t1] == order[t2]);
        lemma_name_lt_irreflexive(names[t1]);
        if t1 < t2 {
            assert(seat_lt(order[t1], order[t2]));
        } else if t2 < t1 {
            assert(seat_lt(order[t2], order[t1]));
        }
    }
}

/// One more name among the names is one more key among the entries.
proof fn lemma_one_more_name(
    names: Seq<Seq<char>>,
    m: int,
    before: AssignmentView,
    after: AssignmentView,
)
    requires
        0 <= m < names.len(),
        forall|key: Seq<char>| has_key(before, key) <==> is_name_of(names, m, key),
        has_key(after, names[m]),
        forall|key: Seq<char>| key != names[m] ==> has_key(after, key) == has_key(before, key),
    ensures
        forall|key: Seq<char>| has_key(after, key) <==> is_name_of(names, m + 1, key),
{
    assert forall|key: Seq<char>| has_key(after, key) <==> is_name_of(names, m + 1, key) by {
        if key == names[m] {
            assert(is_name_of(names, m + 1, key));
        } else {
            if is_name_of(names, m, key) {
                let t = choose|t: int| 0 <= t < m && #[trigger] names[t] == key;
                assert(0 <= t < m + 1 && names[t] == key);
            }
            if is_name_of(names, m + 1, key) {
                let t = choose|t: int| 0 <= t < m + 1 && #[trigger] names[t] == key;
                assert(0 <= t < m && names[t] == key);
            }
        }
    }
}

/// The first `n` dense tables by name: ascending by name, one entry for
/// each of them, with the names of its members.
pub proof fn lemma_named_tables(
    names: Seq<Seq<char>>,
    persons: Seq<Seq<char>>,
    tables: Seq<Seq<u32>>,
    n: int,
)
    requires
        0 <= n <= names.len(),
        forall|t1: int, t2: int|
            0 <= t1 < names.len() && 0 <= t2 < names.len() && #[trigger] names[t1]
                == #[trigger] names[t2] ==> t1 == t2,
    ensures
        ascending(named_tables(names, persons, tables, n)),
        named_tables(names, persons, tables, n).len() == n,
        forall|t: int|
            0 <= t < n ==> lookup(named_tables(names, persons, tables, n), #[trigger] names[t])
                == Some(named(persons, tables[t])),
        forall|key: Seq<char>|
            has_key(named_tables(names, persons, tables, n), key) <==> is_name_of(names, n, key),
    decreases n,
{
    if n > 0 {
        let m = n - 1;
        lemma_named_tables(names, persons, tables, m);
        let before = named_tables(names, persons, tables, m);
        let after = named_tables(names, persons, tables, n);
        let key = names[m];
        let value = named(persons, tables[m]);
        assert(after == put(before, key, value));
        assert(!is_name_of(names, m, key)) by {
            if is_name_of(names, m, key) {
                let t = choose|t: int| 0 <= t < m && #[trigger] names[t] == key;
                assert(names[t] == names[m]);
            }
        }
        lemma_put(before, key, value);
        assert(has_key(after, key)) by {
            assert(lookup(after, key) is Some);
        }
        lemma_one_more_name(names, m, before, after);
        assert forall|t: int| 0 <= t < n implies lookup(after, #[trigger] names[t]) == Some(
            named(persons, tables[t]),
        ) by {
            if t < m {
                assert(names[t] != key);
            }
        }
    }
}

/// The seating by dense index that `solution` puts into names.
pub open spec fn dense_solution(
    tables: Seq<(Seq<char>, TableType)>,
    tribe: TribeView,
    values: Seq<Weight>,
) -> Seating {
    run(
        Seating::empty(dense_sizes(tables), tribe.len()),
        relation_rows(tribe),
        values,
        tribe.len(),
    )
}

/// The entry at `i` of the seating by name is the dense table `t`: it has
/// its name and the names of its members.
pub open spec fn is_dense_table(
    tables: Seq<(Seq<char>, TableType)>,
    tribe: TribeView,
    values: Seq<Weight>,
    i: int,
    t: int,
) -> bool {
    &&& 0 <= i < solution(tables, tribe, values).len()
    &&& 0 <= t < tables.len()
    &&& solution(tables, tribe, values)[i].0 == dense_names(tables)[t]
    &&& solution(tables, tribe, values)[i].1 == named(
        persons_of(tribe),
        dense_solution(tables, tribe, values).tables[t],
    )
}

/// The entry at `i` of the seating by name is a dense table.
pub open spec fn entry_is_dense(
    tables: Seq<(Seq<char>, TableType)>,
    tribe: TribeView,
    values: Seq<Weight>,
    i: int,
) -> bool {
    exists|t: int| is_dense_table(tables, tribe, values, i, t)
}

/// The dense table `t` is an entry of the seating by name.
pub open spec fn dense_is_entry(
    tables: Seq<(Seq<char>, TableType)>,
    tribe: TribeView,
    values: Seq<Weight>,
    t: int,
) -> bool {
    exists|i: int| is_dense_table(tables, tribe, values, i, t)
}

/// The seating by name and the seating by dense index hold the same
/// tables: each entry of the one is a table of the other.
pub proof fn lemma_solution_tables(
    tables: Seq<(Seq<char>, TableType)>,
    tribe: TribeView,
    values: Seq<Weight>,
)
    requires
        ascending(tables),
        tribe.len() <= u32::MAX,
    ensures
        ascending(solution(tables, tribe, values)),
        solution(tables, tribe, values).len() == tables.len(),
        dense_solution(tables, tribe, values).valid(),
        dense_solution(tables, tribe, values).capacities == dense_sizes(tables),
        dense_solution(tables, tribe, values).n_persons == tribe.len(),
        forall|i: int|
            0 <= i < tables.len() ==> #[trigger] entry_is_dense(tables, tribe, values, i),
        forall|t: int|
            0 <= t < tables.len() ==> #[trigger] dense_is_entry(tables, tribe, values, t),
{
    let a = solution(tables, tribe, values);
    let names = dense_names(tables);
    let persons = persons_of(tribe);
    let start = Seating::empty(dense_sizes(tables), tribe.len());
    let st = dense_solution(tables, tribe, values).tables;
    let n = tables.len() as int;
    lemma_dense_tables(tables);
    lemma_named_tables(names, persons, st, n);
    assert(start.valid());
    lemma_run_valid(start, relation_rows(tribe), values, tribe.len());
    assert forall|i: int| 0 <= i < n implies #[trigger] entry_is_dense(
        tables,
        tribe,
        values,
        i,
    ) by {
        lemma_index_of(a, i);
        assert(is_name_of(names, n, a[i].0));
        let t = choose|t: int| 0 <= t < n && #[trigger] names[t] == a[i].0;
        assert(lookup(a, names[t]) == Some(named(persons, st[t])));
        assert(is_dense_table(tables, tribe, values, i, t));
    }
    assert forall|t: int| 0 <= t < n implies #[trigger] dense_is_entry(
        tables,
        tribe,
        values,
        t,
    ) by {
        assert(lookup(a, names[t]) == Some(named(persons, st[t])));
        let i = index_of(a, names[t]);
        assert(is_dense_table(tables, tribe, values, i, t));
    }
}

/// The seating has an entry for every table, also where nobody sits at it,
/// and no other entry: its keys are the names of the tables, in their
/// order.
pub open spec fn has_every_table(a: AssignmentView, tables: Seq<(Seq<char>, TableType)>) -> bool {
    &&& a.len() == tables.len()
    &&& forall|i: int| 0 <= i < a.len() ==> (#[trigger] a[i]).0 == tables[i].0
}

/// No table of the seating holds more persons than the table has seats.
pub open spec fn within_capacity(a: AssignmentView, tables: Seq<(Seq<char>, TableType)>) -> bool {
    forall|i: int|
        0 <= i < a.len() ==> lookup(tables, (#[trigger] a[i]).0) is Some && a[i].1.len() <= lookup(
            tables,
            a[i].0,
        )->0.n_seats
}

/// The name stands at place `j` of the entry at `i`.
pub open spec fn sits(a: AssignmentView, name: Seq<char>, i: int, j: int) -> bool {
    0 <= i < a.len() && 0 <= j < a[i].1.len() && a[i].1[j] == name
}

/// The seating holds every person of the tribe, each at one place only,
/// and nobody else.
pub open spec fn seats_each_once(a: AssignmentView, tribe: TribeView) -> bool {
    &&& forall|name: Seq<char>| has_key(tribe, name) ==> exists|i: int, j: int| sits(a, name, i, j)
    &&& forall|name: Seq<char>, i: int, j: int| sits(a, name, i, j) ==> has_key(tribe, name)
    &&& forall|name: Seq<char>, i1: int, j1: int, i2: int, j2: int|
        sits(a, name, i1, j1) && sits(a, name, i2, j2) ==> i1 == i2 && j1 == j2
}

/// Every table of the problem has an entry in the seating, also where
/// nobody sits at it, and the seating has no other entry.
pub proof fn lemma_solution_keys(
    tables: Seq<(Seq<char>, TableType)>,
    tribe: TribeView,
    values: Seq<Weight>,
)
    requires
        ascending(tables),
    ensures
        has_every_table(solution(tables, tribe, values), tables),
{
    lemma_dense_tables(tables);
    lemma_named_tables(
        dense_names(tables),
        persons_of(tribe),
        dense_solution(tables, tribe, values).tables,
        tables.len() as int,
    );
    lemma_same_key_set(solution(tables, tribe, values), tables);
}

/// No table of the seating holds more persons than the table has seats.
pub proof fn lemma_solution_capacity(
    tables: Seq<(Seq<char>, TableType)>,
    tribe: TribeView,
    values: Seq<Weight>,
)
    requires
        ascending(tables),
        tribe.len() <= u32::MAX,
    ensures
        within_capacity(solution(tables, tribe, values), tables),
{
    let a = solution(tables, tribe, values);
    let dense = dense_solution(tables, tribe, values);
    lemma_solution_tables(tables, tribe, values);
    lemma_dense_tables(tables);
    assert forall|i: int| 0 <= i < a.len() implies lookup(tables, (#[trigger] a[i]).0) is Some
        && a[i].1.len() <= lookup(tables, a[i].0)->0.n_seats by {
        assert(entry_is_dense(tables, tribe, values, i));
        let t = choose|t: int| is_dense_table(tables, tribe, values, i, t);
        assert(dense.tables[t].len() <= dense.capacities[t]);
        assert(lookup(tables, dense_names(tables)[t]) == Some(
            TableType { n_seats: dense_sizes(tables)[t] },
        ));
    }
}

/// Where the tables have a seat for every person, the seating holds every
/// person of the tribe, each at one place only, and nobody else.
pub proof fn lemma_solution_partition(
    tables: Seq<(Seq<char>, TableType)>,
    tribe: TribeView,
    values: Seq<Weight>,
)
    requires
        ascending(tables),
        ascending(tribe),
        tribe.len() <= u32::MAX,
        total(seat_counts(tables)) >= tribe.len(),
    ensures
        seats_each_once(solution(tables, tribe, values), tribe),
{
    let a = solution(tables, tribe, values);
    let dense = dense_solution(tables, tribe, values);
    let persons = persons_of(tribe);
    let names = dense_names(tables);
    lemma_solution_tables(tables, tribe, values);
    lemma_dense_tables(tables);
    crate::solver::lemma_dense_total(tables);
    lemma_run_seats_all(dense_sizes(tables), tribe.len(), relation_rows(tribe), values, tribe.len());
    assert forall|name: Seq<char>| has_key(tribe, name) implies exists|i: int, j: int|
        sits(a, name, i, j) by {
        let p = index_of(tribe, name);
        let q = p as u32;
        assert(dense.seated(q));
        let t = choose|t: int| dense.sits_at(q, t);
        let j = choose|j: int| 0 <= j < dense.tables[t].len() && dense.tables[t][j] == q;
        assert(dense_is_entry(tables, tribe, values, t));
        let i = choose|i: int| is_dense_table(tables, tribe, values, i, t);
        assert(a[i].1[j] == persons[p]);
        assert(sits(a, name, i, j));
    }
    assert forall|name: Seq<char>, i: int, j: int| sits(a, name, i, j) implies has_key(
        tribe,
        name,
    ) by {
        assert(entry_is_dense(tables, tribe, values, i));
        let t = choose|t: int| is_dense_table(tables, tribe, values, i, t);
        let p = dense.tables[t][j];
        assert(p < tribe.len());
        assert(tribe[p as int].0 == name);
    }
    assert forall|name: Seq<char>, i1: int, j1: int, i2: int, j2: int|
        sits(a, name, i1, j1) && sits(a, name, i2, j2) implies i1 == i2 && j1 == j2 by {
        assert(entry_is_dense(tables, tribe, values, i1));
        assert(entry_is_dense(tables, tribe, values, i2));
        let t1 = choose|t: int| is_dense_table(tables, tribe, values, i1, t);
        let t2 = choose|t: int| is_dense_table(tables, tribe, values, i2, t);
        let first = dense.tables[t1][j1];
        let second = dense.tables[t2][j2];
        assert(first < tribe.len() && second < tribe.len());
        assert(tribe[first as int].0 == tribe[second as int].0);
        lemma_index_of(tribe, first as int);
        lemma_index_of(tribe, second as int);
        assert(first == second);
        assert(t1 == t2 && j1 == j2);
        lemma_index_of(a, i1);
        lemma_index_of(a, i2);
    }
}

/// Two results are the same: the same seating by name, or the same error
/// with the same reason.
pub open spec fn same_result(r1: SolverResult<Assignment>, r2: SolverResult<Assignment>) -> bool {
    match (r1, r2) {
        (Ok(a1), Ok(a2)) => assignment_view(a1@) == assignment_view(a2@),
        (Err(SolverError::ProblemTooLarge(s1)), Err(SolverError::ProblemTooLarge(s2))) => s1@
            == s2@,
        (Err(SolverError::NoSolution(s1)), Err(SolverError::NoSolution(s2))) => s1@ == s2@,
        _ => false,
    }
}

/// Solving the same problem twice gives the same result.
pub proof fn lemma_solve_deterministic(
    tables: Seq<(Seq<char>, TableType)>,
    tribe: TribeView,
    r1: SolverResult<Assignment>,
    r2: SolverResult<Assignment>,
)
    requires
        solved(tables, tribe, r1),
        solved(tables, tribe, r2),
    ensures
        same_result(r1, r2),
{
}

/// With no table and nobody to seat, solving gives the empty seating.
pub proof fn lemma_solve_nothing(r: SolverResult<Assignment>)
    requires
        solved(Seq::<(Seq<char>, TableType)>::empty(), TribeView::empty(), r),
    ensures
        r is Ok,
        r->Ok_0@.len() == 0,
{
    let tables = Seq::<(Seq<char>, TableType)>::empty();
    assert(seat_counts(tables).len() == 0);
    assert(total(seat_counts(tables)) == 0);
    assert(assignment_view(r->Ok_0@).len() == 0);
}

/// More persons than seats have no solution.
pub proof fn lemma_solve_oversubscribed(
    tables: Seq<(Seq<char>, TableType)>,
    tribe: TribeView,
    r: SolverResult<Assignment>,
)
    requires
        solved(tables, tribe, r),
        tribe.len() > total(seat_counts(tables)),
    ensures
        r is Err,
        r->Err_0 is NoSolution || r->Err_0 is ProblemTooLarge,
        tables.len() < u32::MAX && tribe.len() < u32::MAX ==> r->Err_0 is NoSolution,
{
}

/// As many tables or persons as an index can count, or more seats, are too
/// large a problem.
pub proof fn lemma_solve_too_large(
    tables: Seq<(Seq<char>, TableType)>,
    tribe: TribeView,
    r: SolverResult<Assignment>,
)
    requires
        solved(tables, tribe, r),
        tables.len() >= u32::MAX || tribe.len() >= u32::MAX || total(seat_counts(tables))
            > u32::MAX,
    ensures
        r is Err,
        r->Err_0 is ProblemTooLarge,
{
}

/// The relation at place `j` of the tribe's relations joins the node `x`
/// to the endpoint of the edge, with the edge's strength.
pub open spec fn joins_at(tribe: TribeView, j: int, x: int, e: (u32, RelationStrength)) -> bool {
    let r = relations_of(tribe)[j];
    &&& e.1 == r.2
    &&& (rank(tribe, r.0) == x && rank(tribe, r.1) == e.0) || (rank(tribe, r.1) == x && rank(
        tribe,
        r.0,
    ) == e.0)
}

/// One of the first `k` relations joins the node `x` to the endpoint of the
/// edge, with the edge's strength.
pub open spec fn linked(tribe: TribeView, k: int, x: int, e: (u32, RelationStrength)) -> bool {
    exists|j: int| 0 <= j < k && #[trigger] joins_at(tribe, j, x, e)
}

/// A person stands at the place that is their rank, and no other person
/// has that rank.
pub proof fn lemma_rank_of_person(tribe: TribeView, name: Seq<char>)
    requires
        ascending(tribe),
        has_key(tribe, name),
    ensures
        0 <= rank(tribe, name) < tribe.len(),
        tribe[rank(tribe, name)].0 == name,
{
    lemma_rank_parts(tribe, name);
}

/// After the first `k` relations the graph holds an edge for each of them,
/// in the rows of both its persons, and no other edge.
pub proof fn lemma_rows_after(tribe: TribeView, k: int)
    requires
        tribe_wf(tribe),
        tribe.len() < u32::MAX,
        0 <= k <= relations_of(tribe).len(),
    ensures
        rows_wf(rows_after(tribe, k)),
        rows_after(tribe, k).len() == tribe.len(),
        forall|x: int, e: (u32, RelationStrength)|
            0 <= x < tribe.len() ==> (#[trigger] rows_after(tribe, k)[x].contains(e) <==> linked(
                tribe,
                k,
                x,
                e,
            )),
    decreases k,
{
    let n = tribe.len() as int;
    let rels = relations_of(tribe);
    lemma_relation_rows(tribe, k);
    if k == 0 {
        assert forall|x: int, e: (u32, RelationStrength)| 0 <= x < n implies (
        #[trigger] rows_after(tribe, k)[x].contains(e) <==> linked(tribe, k, x, e)) by {
            assert(rows_after(tribe, k)[x].len() == 0);
        }
    } else {
        let last = k - 1;
        lemma_rows_after(tribe, last);
        lemma_relation_rows(tribe, last);
        let before = rows_after(tribe, last);
        let after = rows_after(tribe, k);
        let r = rels[last];
        assert(tribe.take(n) =~= tribe);
        lemma_relations_between_persons(tribe, n);
        lemma_relations_one_per_pair(tribe, n);
        assert(has_key(tribe, r.0) && has_key(tribe, r.1));
        lemma_rank_of_person(tribe, r.0);
        lemma_rank_of_person(tribe, r.1);
        let a = rank(tribe, r.0) as u32;
        let b = rank(tribe, r.1) as u32;
        assert(after == rows_add_edge(before, a, b, r.2));
        // No earlier relation stands between the same two persons.
        if row_has(before[a as int], b) {
            let i = choose|i: int|
                0 <= i < before[a as int].len() && (#[trigger] before[a as int][i]).0 == b;
            let e = before[a as int][i];
            assert(before[a as int].contains(e));
            assert(linked(tribe, last, a as int, e));
            let j = choose|j: int| 0 <= j < last && #[trigger] joins_at(tribe, j, a as int, e);
            assert(has_key(tribe, rels[j].0) && has_key(tribe, rels[j].1));
            lemma_rank_of_person(tribe, rels[j].0);
            lemma_rank_of_person(tribe, rels[j].1);
            assert(same_pair(rels[j], rels[last]));
            assert(false);
        }
        lemma_add_edge_holds(before, a, b, r.2);
        assert forall|x: int, e: (u32, RelationStrength)| 0 <= x < n implies (
        #[trigger] after[x].contains(e) <==> linked(tribe, k, x, e)) by {
            let new_here = (x == a && e == (b, r.2)) || (x == b && e == (a, r.2));
            assert(after[x].contains(e) <==> (before[x].contains(e) || new_here));
            assert(before[x].contains(e) <==> linked(tribe, last, x, e));
            assert(new_here <==> joins_at(tribe, last, x, e));
            if linked(tribe, last, x, e) {
                let j = choose|j: int| 0 <= j < last && #[trigger] joins_at(tribe, j, x, e);
                assert(joins_at(tribe, j, x, e));
            }
            if linked(tribe, k, x, e) {
                let j = choose|j: int| 0 <= j < k && #[trigger] joins_at(tribe, j, x, e);
                if j < last {
                    assert(joins_at(tribe, j, x, e));
                    assert(linked(tribe, last, x, e));
                }
            }
        }
    }
}

/// The strength of the relation between the two persons, in whichever
/// direction it is noted.
pub open spec fn strength_between(
    tribe: TribeView,
    name1: Seq<char>,
    name2: Seq<char>,
) -> RelationStrength {
    if notes(tribe, name1, name2) {
        lookup(relations_from(tribe, name1), name2)->0
    } else {
        lookup(relations_from(tribe, name2), name1)->0
    }
}

/// Where the tribe notes a relation between two persons, the node of the
/// one has an edge to the node of the other, with the strength of that
/// relation.
pub proof fn lemma_related_has_edge(tribe: TribeView, name1: Seq<char>, name2: Seq<char>)
    requires
        tribe_wf(tribe),
        tribe.len() < u32::MAX,
        has_key(tribe, name1),
        has_key(tribe, name2),
        related(tribe, name1, name2),
    ensures
        relation_rows(tribe)[rank(tribe, name1)].contains(
            (rank(tribe, name2) as u32, strength_between(tribe, name1, name2)),
        ),
        row_has(relation_rows(tribe)[rank(tribe, name1)], rank(tribe, name2) as u32),
{
    let n = tribe.len() as int;
    let rels = relations_of(tribe);
    let k = rels.len() as int;
    let rows = relation_rows(tribe);
    let x = rank(tribe, name1);
    let y = rank(tribe, name2) as u32;
    lemma_rows_after(tribe, k);
    lemma_rank_of_person(tribe, name1);
    lemma_rank_of_person(tribe, name2);
    assert(tribe.take(n) =~= tribe);
    lemma_relations_listed(tribe, n);
    let v = strength_between(tribe, name1, name2);
    let (from, to) = if notes(tribe, name1, name2) {
        (name1, name2)
    } else {
        (name2, name1)
    };
    let i = index_of(tribe, from);
    lemma_index_of(tribe, i);
    let m = index_of(tribe[i].1, to);
    lemma_relation_at(tribe, i, m);
    assert(relation_at(tribe, i, m) == (from, to, v));
    assert(noted_upto(tribe, n, (from, to, v)));
    assert(rels.contains((from, to, v)));
    let j = choose|j: int| 0 <= j < rels.len() && rels[j] == (from, to, v);
    assert(joins_at(tribe, j, x, (y, v)));
    assert(linked(tribe, k, x, (y, v)));
    assert(rows[x].contains((y, v)));
    let at = choose|at: int| 0 <= at < rows[x].len() && rows[x][at] == (y, v);
    assert(rows[x][at].0 == y);
}

/// Where the node of one person has an edge to the node of another, the
/// tribe notes a relation between the two.
pub proof fn lemma_edge_is_related(tribe: TribeView, name1: Seq<char>, name2: Seq<char>)
    requires
        tribe_wf(tribe),
        tribe.len() < u32::MAX,
        has_key(tribe, name1),
        has_key(tribe, name2),
        row_has(relation_rows(tribe)[rank(tribe, name1)], rank(tribe, name2) as u32),
    ensures
        related(tribe, name1, name2),
{
    let n = tribe.len() as int;
    let rels = relations_of(tribe);
    let k = rels.len() as int;
    let rows = relation_rows(tribe);
    let x = rank(tribe, name1);
    let y = rank(tribe, name2) as u32;
    lemma_rows_after(tribe, k);
    lemma_rank_of_person(tribe, name1);
    lemma_rank_of_person(tribe, name2);
    assert(tribe.take(n) =~= tribe);
    lemma_relations_listed(tribe, n);
    lemma_relations_between_persons(tribe, n);
    let at = choose|at: int| 0 <= at < rows[x].len() && (#[trigger] rows[x][at]).0 == y;
    let e = rows[x][at];
    assert(rows[x].contains(e));
    assert(linked(tribe, k, x, e));
    let j = choose|j: int| 0 <= j < k && #[trigger] joins_at(tribe, j, x, e);
    let r = rels[j];
    assert(has_key(tribe, r.0) && has_key(tribe, r.1));
    lemma_rank_of_person(tribe, r.0);
    lemma_rank_of_person(tribe, r.1);
    assert(rels.contains(r));
    assert(noted_upto(tribe, n, r));
    let (i, m) = choose|i: int, m: int|
        0 <= i < n && 0 <= m < tribe[i].1.len() && #[trigger] relation_at(tribe, i, m) == r;
    lemma_relation_at(tribe, i, m);
    assert(notes(tribe, r.0, r.1));
}

/// What the relation graph of a tribe holds: the node of a person has an
/// edge to the node of another exactly where the tribe notes a relation
/// between the two, in either direction, and the edge has the strength of
/// that relation, which is the only one between the two.
pub proof fn lemma_relation_graph(tribe: TribeView, name1: Seq<char>, name2: Seq<char>)
    requires
        tribe_wf(tribe),
        tribe.len() < u32::MAX,
        has_key(tribe, name1),
        has_key(tribe, name2),
    ensures
        row_has(relation_rows(tribe)[rank(tribe, name1)], rank(tribe, name2) as u32) <==> related(
            tribe,
            name1,
            name2,
        ),
        related(tribe, name1, name2) ==> relation_rows(tribe)[rank(tribe, name1)].contains(
            (rank(tribe, name2) as u32, strength_between(tribe, name1, name2)),
        ),
{
    if related(tribe, name1, name2) {
        lemma_related_has_edge(tribe, name1, name2);
    }
    if row_has(relation_rows(tribe)[rank(tribe, name1)], rank(tribe, name2) as u32) {
        lemma_edge_is_related(tribe, name1, name2);
    }
}

/// The relations of a tribe hold at most one for any two persons.
pub proof fn lemma_one_relation_per_pair(tribe: TribeView)
    requires
        tribe_wf(tribe),
    ensures
        forall|j1: int, j2: int|
            0 <= j1 < j2 < relations_of(tribe).len() ==> !same_pair(
                #[trigger] relations_of(tribe)[j1],
                #[trigger] relations_of(tribe)[j2],
            ),
{
    assert(tribe.take(tribe.len() as int) =~= tribe);
    lemma_relations_one_per_pair(tribe, tribe.len() as int);
}

} // verus!
