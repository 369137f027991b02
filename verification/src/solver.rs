//! The solver: from tables and a tribe by name to dense indices, through
//! the turns of the persons, and back to names.
//!
//! Relations weigh whole numbers, so that costs add up exactly.

use crate::assignor::{lemma_prefix_sum_monotonic, prefix_sum, total, Assignor, Seating};
use crate::costs::{AssignorWithCosts, Costed, Weight};
use crate::graph::{
    graph_add_edge, graph_rows, graph_with_nodes, lemma_add_edge_wf, rows_add_edge, rows_empty,
    rows_wf, RelationGraph, Row,
};
use crate::greedy::{
    best_among, best_table, is_best, join_cost, lemma_best_unique, lemma_run_costed, no_worse,
    open_table, place_costed, run, run_costed,
};
use crate::laws::{
    has_every_table, lemma_solution_capacity, lemma_solution_keys, lemma_solution_partition,
    seats_each_once, within_capacity,
};
use crate::model::{
    lemma_relations_between_persons, persons_of, relations_of, Assignment, TableType, Tables,
    Tribe, TribeView,
};
use crate::name_map::{
    ascending, has_key, lemma_rank_parts, lemma_same_keys, put, rank, NameMap,
};
use core::ops::Deref;
use vstd::prelude::*;
use vstd::string::StringExecFns;

verus! {

/// Why the solver gave no seating.
#[derive(Debug, Clone, PartialEq, Eq)]
pub enum SolverError {
    ProblemTooLarge(String),
    NoSolution(String),
    Unknown,
}

/// What the solver gives: a value, or why there is none.
pub type SolverResult<T> = Result<T, SolverError>;

/// What is too large about a problem with as many tables as an index can
/// count, or more.
pub open spec fn too_many_tables() -> Seq<char> {
    "there are too many tables"@
}

/// What is too large about a problem whose seats an index cannot count.
pub open spec fn too_many_seats() -> Seq<char> {
    "there are too many seats"@
}

/// What is too large about a problem with as many persons as an index can
/// count, or more.
pub open spec fn too_many_persons() -> Seq<char> {
    "there are too many persons"@
}

/// Why a problem with more persons than seats has no solution.
pub open spec fn not_enough_seats() -> Seq<char> {
    "there is not enough sitting space"@
}

impl SolverError {
    /// The problem is too large, for the reason given.
    pub open spec fn is_too_large(self, reason: Seq<char>) -> bool {
        self matches SolverError::ProblemTooLarge(r) && r@ == reason
    }

    /// The problem has no solution, for the reason given.
    pub open spec fn is_no_solution(self, reason: Seq<char>) -> bool {
        self matches SolverError::NoSolution(r) && r@ == reason
    }

    /// What the message says.
    pub open spec fn spec_message(self) -> Seq<char> {
        match self {
            SolverError::ProblemTooLarge(r) => "the problem is too large, "@ + r@
                + " (max 4294967295)"@,
            SolverError::NoSolution(r) => "no solution could be found, "@ + r@,
            SolverError::Unknown => "unknown error"@,
        }
    }

    /// The error in words.
    pub fn message(&self) -> (r: String)
        ensures
            r@ == self.spec_message(),
    {
        match self {
            SolverError::ProblemTooLarge(reason) => {
                let mut out = "the problem is too large, ".to_owned();
                out.append(reason.as_str());
                out.append(" (max 4294967295)");
                out
            },
            SolverError::NoSolution(reason) => {
                let mut out = "no solution could be found, ".to_owned();
                out.append(reason.as_str());
                out
            },
            SolverError::Unknown => "unknown error".to_owned(),
        }
    }
}

/// How much each strength of relation weighs, from the worst strength to
/// the best.
#[derive(Clone, Debug)]
pub struct SolverSettings {
    pub relation_values: [Weight; 4],
}

/// The weights that `solve` works with.
pub open spec fn default_values() -> Seq<Weight> {
    seq![-4i32, -1i32, 1i32, 4i32]
}

/// The names of tables and persons by dense index.
#[derive(Clone, Debug)]
pub struct BackwardMapping<'a> {
    table_names: Vec<&'a str>,
    person_names: Vec<&'a str>,
}

/// The names that the strings spell.
pub open spec fn spelled(names: Seq<&str>) -> Seq<Seq<char>> {
    Seq::new(names.len(), |i: int| names[i]@)
}

impl<'a> BackwardMapping<'a> {
    /// The tables' names by dense index.
    pub closed spec fn table_names(&self) -> Seq<Seq<char>> {
        spelled(self.table_names@)
    }

    /// The persons' names by dense index.
    pub closed spec fn person_names(&self) -> Seq<Seq<char>> {
        spelled(self.person_names@)
    }

    /// The mapping of these names, each at its index.
    pub fn new(table_names: Vec<&'a str>, person_names: Vec<&'a str>) -> (r: Self)
        ensures
            r.table_names() == spelled(table_names@),
            r.person_names() == spelled(person_names@),
    {
        BackwardMapping { table_names, person_names }
    }

    /// The name of the table with the index, if there is one.
    pub fn table_name(&self, idx: u32) -> (r: Option<&'a str>)
        ensures
            match r {
                Some(name) => idx < self.table_names().len() && name@ == self.table_names()[idx as int],
                None => idx >= self.table_names().len(),
            },
    {
        if (idx as usize) < self.table_names.len() {
            Some(self.table_names[idx as usize])
        } else {
            None
        }
    }

    /// The name of the person with the index, if there is one.
    pub fn person_name(&self, idx: u32) -> (r: Option<&'a str>)
        ensures
            match r {
                Some(name) => idx < self.person_names().len() && name@ == self.person_names()[idx as int],
                None => idx >= self.person_names().len(),
            },
    {
        if (idx as usize) < self.person_names.len() {
            Some(self.person_names[idx as usize])
        } else {
            None
        }
    }
}

/// A table by dense index: its name and the number of its seats.
pub type DenseTable = (Seq<char>, u32);

/// The seat counts of the tables, in the order of the tables' names.
pub open spec fn seat_counts(tables: Seq<(Seq<char>, TableType)>) -> Seq<u32> {
    Seq::new(tables.len(), |i: int| tables[i].1.n_seats)
}

/// The tables before `j` have at most `seats` seats, the others have more.
pub open spec fn splits_at(order: Seq<DenseTable>, seats: u32, j: int) -> bool {
    &&& 0 <= j <= order.len()
    &&& forall|i: int| 0 <= i < j ==> (#[trigger] order[i]).1 <= seats
    &&& forall|i: int| j <= i < order.len() ==> (#[trigger] order[i]).1 > seats
}

/// Where a table with `seats` seats goes among tables that ascend by seat
/// count: behind those that have no more seats than it.
pub open spec fn place_of(order: Seq<DenseTable>, seats: u32) -> int {
    choose|j: int| splits_at(order, seats, j)
}

/// The first `n` tables by ascending seat count, and by name among tables
/// with as many seats.
pub open spec fn seat_order_upto(tables: Seq<(Seq<char>, TableType)>, n: int) -> Seq<DenseTable>
    decreases n,
{
    if n <= 0 {
        Seq::empty()
    } else {
        let before = seat_order_upto(tables, n - 1);
        before.insert(
            place_of(before, tables[n - 1].1.n_seats),
            (tables[n - 1].0, tables[n - 1].1.n_seats),
        )
    }
}

/// The tables by dense index: by ascending seat count, and by name among
/// tables with as many seats.
pub open spec fn seat_order(tables: Seq<(Seq<char>, TableType)>) -> Seq<DenseTable> {
    seat_order_upto(tables, tables.len() as int)
}

/// The names of the tables by dense index.
pub open spec fn dense_names(tables: Seq<(Seq<char>, TableType)>) -> Seq<Seq<char>> {
    Seq::new(tables.len(), |t: int| seat_order(tables)[t].0)
}

/// The seat counts of the tables by dense index.
pub open spec fn dense_sizes(tables: Seq<(Seq<char>, TableType)>) -> Seq<u32> {
    Seq::new(tables.len(), |t: int| seat_order(tables)[t].1)
}

/// The seat counts ascend.
pub open spec fn sizes_ascend(order: Seq<DenseTable>) -> bool {
    forall|i: int, j: int| 0 <= i <= j < order.len() ==> (#[trigger] order[i]).1 <= (
    #[trigger] order[j]).1
}

/// Tables that ascend by seat count split at one place only.
pub proof fn lemma_splits_unique(order: Seq<DenseTable>, seats: u32, j1: int, j2: int)
    requires
        splits_at(order, seats, j1),
        splits_at(order, seats, j2),
    ensures
        j1 == j2,
{
    if j1 < j2 {
        assert(order[j1].1 > seats);
    } else if j2 < j1 {
        assert(order[j2].1 > seats);
    }
}

/// The graph's rows after the first `k` relations of the tribe, each added
/// as an edge between the indices of its two persons.
pub open spec fn rows_after(tribe: TribeView, k: int) -> Seq<Row>
    decreases k,
{
    if k <= 0 {
        rows_empty(tribe.len())
    } else {
        let r = relations_of(tribe)[k - 1];
        rows_add_edge(
            rows_after(tribe, k - 1),
            rank(tribe, r.0) as u32,
            rank(tribe, r.1) as u32,
            r.2,
        )
    }
}

/// The rows of the tribe's relation graph: the relations of the tribe, one
/// after another, each added as an edge.
pub open spec fn relation_rows(tribe: TribeView) -> Seq<Row> {
    rows_after(tribe, relations_of(tribe).len() as int)
}

/// The relation graph of a tribe has a node for each person, at most one
/// edge between two persons, and every edge in the rows of both its ends.
pub proof fn lemma_relation_rows(tribe: TribeView, k: int)
    requires
        crate::model::tribe_wf(tribe),
        tribe.len() < u32::MAX,
        0 <= k <= relations_of(tribe).len(),
    ensures
        rows_wf(rows_after(tribe, k)),
        rows_after(tribe, k).len() == tribe.len(),
    decreases k,
{
    if k > 0 {
        lemma_relation_rows(tribe, k - 1);
        lemma_relations_between_persons(tribe, tribe.len() as int);
        assert(tribe.take(tribe.len() as int) =~= tribe);
        let r = relations_of(tribe)[k - 1];
        assert(has_key(tribe, r.0) && has_key(tribe, r.1));
        lemma_rank_parts(tribe, r.0);
        lemma_rank_parts(tribe, r.1);
        lemma_add_edge_wf(
            rows_after(tribe, k - 1),
            rank(tribe, r.0) as u32,
            rank(tribe, r.1) as u32,
            r.2,
        );
    }
}

/// The seat counts of dense tables.
pub open spec fn sizes_of(order: Seq<DenseTable>) -> Seq<u32> {
    Seq::new(order.len(), |t: int| order[t].1)
}

/// Tables that ascend by seat count split somewhere for every seat count.
pub proof fn lemma_split_exists(order: Seq<DenseTable>, seats: u32)
    requires
        sizes_ascend(order),
    ensures
        splits_at(order, seats, place_of(order, seats)),
    decreases order.len(),
{
    if order.len() == 0 {
        assert(splits_at(order, seats, 0));
    } else {
        let n = order.len() - 1;
        let front = order.drop_last();
        assert forall|i: int, j: int| 0 <= i <= j < front.len() implies (#[trigger] front[i]).1 <= (
        #[trigger] front[j]).1 by {
            assert(order[i].1 <= order[j].1);
        }
        lemma_split_exists(front, seats);
        let j = place_of(front, seats);
        if order[n].1 <= seats {
            assert forall|i: int| 0 <= i < n + 1 implies (#[trigger] order[i]).1 <= seats by {
                assert(order[i].1 <= order[n].1);
            }
            assert(splits_at(order, seats, n + 1));
        } else {
            assert forall|i: int| 0 <= i < j implies (#[trigger] order[i]).1 <= seats by {
                assert(front[i].1 <= seats);
            }
            assert forall|i: int| j <= i < order.len() implies (#[trigger] order[i]).1 > seats by {
                if i < n {
                    assert(front[i].1 > seats);
                }
            }
            assert(splits_at(order, seats, j));
        }
    }
}

/// One more size at any place adds that size to the sum.
pub proof fn lemma_total_insert(sizes: Seq<u32>, j: int, x: u32)
    requires
        0 <= j <= sizes.len(),
    ensures
        total(sizes.insert(j, x)) == total(sizes) + x,
    decreases sizes.len(),
{
    let out = sizes.insert(j, x);
    if j == sizes.len() {
        assert(out.drop_last() =~= sizes);
        lemma_prefix_same(out, sizes, sizes.len() as int);
    } else {
        let front = sizes.drop_last();
        lemma_total_insert(front, j, x);
        assert(front.insert(j, x) =~= out.drop_last());
        lemma_prefix_same(out, out.drop_last(), sizes.len() as int);
        lemma_prefix_same(sizes, front, front.len() as int);
    }
}

/// Sequences that agree on their first `n` sizes have the same sum there.
pub proof fn lemma_prefix_same(a: Seq<u32>, b: Seq<u32>, n: int)
    requires
        0 <= n <= a.len(),
        n <= b.len(),
        forall|i: int| 0 <= i < n ==> a[i] == b[i],
    ensures
        prefix_sum(a, n) == prefix_sum(b, n),
    decreases n,
{
    if n > 0 {
        lemma_prefix_same(a, b, n - 1);
    }
}

/// The dense order of the first `n` tables holds `n` tables, ascends by
/// seat count, and has the seats of these tables.
pub proof fn lemma_seat_order_upto(tables: Seq<(Seq<char>, TableType)>, n: int)
    requires
        0 <= n <= tables.len(),
    ensures
        seat_order_upto(tables, n).len() == n,
        sizes_ascend(seat_order_upto(tables, n)),
        total(sizes_of(seat_order_upto(tables, n))) == prefix_sum(seat_counts(tables), n),
    decreases n,
{
    if n > 0 {
        lemma_seat_order_upto(tables, n - 1);
        let before = seat_order_upto(tables, n - 1);
        let seats = tables[n - 1].1.n_seats;
        lemma_split_exists(before, seats);
        let j = place_of(before, seats);
        let after = seat_order_upto(tables, n);
        assert(after == before.insert(j, (tables[n - 1].0, seats)));
        assert forall|a: int, b: int| 0 <= a <= b < after.len() implies (#[trigger] after[a]).1 <= (
        #[trigger] after[b]).1 by {
            let oa = if a < j { a } else { a - 1 };
            let ob = if b < j { b } else { b - 1 };
            if a == j && b != j {
                assert(before[ob].1 > seats);
            } else if b == j && a != j {
                assert(before[oa].1 <= seats);
            } else if a != j && b != j {
                assert(before[oa].1 <= before[ob].1);
            }
        }
        lemma_total_insert(sizes_of(before), j, seats);
        assert(sizes_of(after) =~= sizes_of(before).insert(j, seats));
    }
}

/// The tables by dense index have the seats of the tables by name.
pub proof fn lemma_dense_total(tables: Seq<(Seq<char>, TableType)>)
    ensures
        dense_sizes(tables).len() == tables.len(),
        dense_names(tables).len() == tables.len(),
        total(dense_sizes(tables)) == total(seat_counts(tables)),
{
    lemma_seat_order_upto(tables, tables.len() as int);
    assert(dense_sizes(tables) =~= sizes_of(seat_order(tables)));
}

/// A seating by name: each table's name with the names of the persons at
/// it, in the order of the tables' names.
pub type AssignmentView = Seq<(Seq<char>, Seq<Seq<char>>)>;

/// The names that the strings spell.
pub open spec fn spelled_strings(names: Seq<String>) -> Seq<Seq<char>> {
    Seq::new(names.len(), |i: int| names[i]@)
}

/// What an assignment holds.
pub open spec fn assignment_view(a: Seq<(Seq<char>, Vec<String>)>) -> AssignmentView {
    Seq::new(a.len(), |i: int| (a[i].0, spelled_strings(a[i].1@)))
}

/// The names of the members.
pub open spec fn named(persons: Seq<Seq<char>>, members: Seq<u32>) -> Seq<Seq<char>> {
    Seq::new(members.len(), |i: int| persons[members[i] as int])
}

/// The first `n` dense tables by name, each with the names of its members.
pub open spec fn named_tables(
    names: Seq<Seq<char>>,
    persons: Seq<Seq<char>>,
    tables: Seq<Seq<u32>>,
    n: int,
) -> AssignmentView
    decreases n,
{
    if n <= 0 {
        Seq::empty()
    } else {
        put(
            named_tables(names, persons, tables, n - 1),
            names[n - 1],
            named(persons, tables[n - 1]),
        )
    }
}

/// Putting a list of names into an assignment puts what it spells into
/// what the assignment holds.
pub proof fn lemma_assignment_put(
    a: Seq<(Seq<char>, Vec<String>)>,
    name: Seq<char>,
    persons: Vec<String>,
)
    requires
        ascending(a),
    ensures
        assignment_view(put(a, name, persons)) == put(
            assignment_view(a),
            name,
            spelled_strings(persons@),
        ),
{
    lemma_same_keys(assignment_view(a), a, name);
    lemma_rank_parts(a, name);
    assert(assignment_view(put(a, name, persons)) =~= put(
        assignment_view(a),
        name,
        spelled_strings(persons@),
    ));
}

/// What a solver holds: the seating with its costs, and the names of
/// tables and persons by dense index.
pub struct SolverView {
    pub costed: Costed,
    pub table_names: Seq<Seq<char>>,
    pub person_names: Seq<Seq<char>>,
}

/// What a new solver holds for these tables, this tribe and these weights.
pub open spec fn initial(
    tables: Seq<(Seq<char>, TableType)>,
    tribe: TribeView,
    values: Seq<Weight>,
) -> SolverView {
    SolverView {
        costed: Costed {
            seating: Seating::empty(dense_sizes(tables), tribe.len()),
            rows: relation_rows(tribe),
            values,
            table_costs: Seq::new(tables.len(), |t: int| 0int),
        },
        table_names: dense_names(tables),
        person_names: persons_of(tribe),
    }
}

/// The first thing that is too large about the problem, if anything is.
pub open spec fn too_large(tables: Seq<(Seq<char>, TableType)>, tribe: TribeView) -> Option<
    Seq<char>,
> {
    if tables.len() >= u32::MAX {
        Some(too_many_tables())
    } else if total(seat_counts(tables)) > u32::MAX {
        Some(too_many_seats())
    } else if tribe.len() >= u32::MAX {
        Some(too_many_persons())
    } else {
        None
    }
}

/// The seating that a solver holds, by name.
pub open spec fn named_seating(v: SolverView) -> AssignmentView {
    named_tables(
        v.table_names,
        v.person_names,
        v.costed.seating.tables,
        v.table_names.len() as int,
    )
}

/// The seating of the tribe at the tables, by name, where every person in
/// turn, ascending by name, joins the open table that costs least.
pub open spec fn solution(
    tables: Seq<(Seq<char>, TableType)>,
    tribe: TribeView,
    values: Seq<Weight>,
) -> AssignmentView {
    named_tables(
        dense_names(tables),
        persons_of(tribe),
        run(
            Seating::empty(dense_sizes(tables), tribe.len()),
            relation_rows(tribe),
            values,
            tribe.len(),
        ).tables,
        tables.len() as int,
    )
}

/// Seats persons at tables.
#[derive(Clone, Debug)]
pub struct Solver<'a> {
    assignor: AssignorWithCosts,
    mapping: BackwardMapping<'a>,
    settings: SolverSettings,
}

impl<'a> View for Solver<'a> {
    type V = SolverView;

    closed spec fn view(&self) -> SolverView {
        SolverView {
            costed: self.assignor@,
            table_names: self.mapping.table_names(),
            person_names: self.mapping.person_names(),
        }
    }
}

impl<'pb> Solver<'pb> {
    /// The solver's invariant: every table and every person has a name.
    pub closed spec fn wf(&self) -> bool {
        &&& self.assignor.wf()
        &&& self.mapping.table_names().len() == self.assignor@.seating.tables.len()
        &&& self.mapping.person_names().len() == self.assignor@.seating.n_persons
    }

    /// The tables by dense index, names and seat counts apart: by ascending
    /// seat count, and by name among tables with as many seats.
    pub fn build_tables<'a>(tables: &'a Tables) -> (r: SolverResult<(Vec<&'a str>, Vec<u32>)>)
        ensures
            match r {
                Ok((names, sizes)) => {
                    &&& tables@.len() < u32::MAX
                    &&& total(seat_counts(tables@)) <= u32::MAX
                    &&& spelled(names@) == dense_names(tables@)
                    &&& sizes@ == dense_sizes(tables@)
                },
                Err(e) => if tables@.len() >= u32::MAX {
                    e.is_too_large(too_many_tables())
                } else {
                    total(seat_counts(tables@)) > u32::MAX && e.is_too_large(too_many_seats())
                },
            },
    {
        let n: usize = tables.len();
        if n >= u32::MAX as usize {
            return Err(SolverError::ProblemTooLarge("there are too many tables".to_owned()));
        }
        let ghost counts = seat_counts(tables@);
        let mut n_seats: u32 = 0;
        let mut i: usize = 0;
        while i < n
            invariant
                n == tables@.len(),
                n < u32::MAX,
                counts == seat_counts(tables@),
                0 <= i <= n,
                n_seats == prefix_sum(counts, i as int),
            decreases n - i,
        {
            match n_seats.checked_add(tables.value_at(i).n_seats) {
                Some(sum) => {
                    n_seats = sum;
                },
                None => {
                    proof {
                        lemma_prefix_sum_monotonic(counts, i + 1, n as int);
                        assert(counts[i as int] == tables@[i as int].1.n_seats);
                        assert(prefix_sum(counts, i + 1) == n_seats + counts[i as int]);
                        assert(counts.len() == n);
                    }
                    return Err(
                        SolverError::ProblemTooLarge("there are too many seats".to_owned()),
                    );
                },
            }
            i = i + 1;
        }
        let mut table_names: Vec<&'a str> = Vec::new();
        let mut table_sizes: Vec<u32> = Vec::new();
        i = 0;
        while i < n
            invariant
                n == tables@.len(),
                0 <= i <= n,
                table_names@.len() == i,
                table_sizes@.len() == i,
                forall|t: int|
                    0 <= t < i ==> (#[trigger] table_names@[t])@ == seat_order_upto(
                        tables@,
                        i as int,
                    )[t].0,
                forall|t: int|
                    0 <= t < i ==> #[trigger] table_sizes@[t] == seat_order_upto(
                        tables@,
                        i as int,
                    )[t].1,
            decreases n - i,
        {
            let name = tables.key_at(i).as_str();
            let seats: u32 = tables.value_at(i).n_seats;
            let ghost before = seat_order_upto(tables@, i as int);
            proof {
                lemma_seat_order_upto(tables@, i as int);
            }
            let mut j: usize = i;
            while j > 0 && table_sizes[j - 1] > seats
                invariant
                    0 <= j <= i,
                    table_sizes@.len() == i,
                    before.len() == i,
                    forall|t: int| 0 <= t < i ==> #[trigger] table_sizes@[t] == before[t].1,
                    forall|t: int| j <= t < i ==> (#[trigger] before[t]).1 > seats,
                decreases j,
            {
                j = j - 1;
            }
            proof {
                assert forall|t: int| 0 <= t < j implies (#[trigger] before[t]).1 <= seats by {
                    assert(before[t].1 <= before[j - 1].1);
                    assert(table_sizes@[j - 1] == before[j - 1].1);
                }
                assert(splits_at(before, seats, j as int));
                lemma_split_exists(before, seats);
                lemma_splits_unique(before, seats, j as int, place_of(before, seats));
            }
            table_names.insert(j, name);
            table_sizes.insert(j, seats);
            i = i + 1;
        }
        proof {
            lemma_seat_order_upto(tables@, n as int);
            assert(spelled(table_names@) =~= dense_names(tables@));
            assert(table_sizes@ =~= dense_sizes(tables@));
            assert(counts =~= seat_counts(tables@));
        }
        Ok((table_names, table_sizes))
    }

    /// The graph of the tribe's relations, and the persons' names by dense
    /// index: ascending by name.
    pub fn build_relations<'a>(tribe: &'a Tribe) -> (r: SolverResult<(RelationGraph, Vec<&'a str>)>)
        requires
            tribe.wf(),
        ensures
            match r {
                Ok((relations, persons)) => {
                    &&& tribe@.len() < u32::MAX
                    &&& graph_rows(relations) == relation_rows(tribe@)
                    &&& rows_wf(graph_rows(relations))
                    &&& graph_rows(relations).len() == tribe@.len()
                    &&& spelled(persons@) == persons_of(tribe@)
                },
                Err(e) => tribe@.len() >= u32::MAX && e.is_too_large(too_many_persons()),
            },
    {
        let n: usize = tribe.persons_count();
        if n >= u32::MAX as usize {
            return Err(SolverError::ProblemTooLarge("there are too many persons".to_owned()));
        }
        let names = tribe.persons();
        let mut persons: Vec<&'a str> = Vec::new();
        let mut i: usize = 0;
        while i < n
            invariant
                n == tribe@.len(),
                n == names@.len(),
                0 <= i <= n,
                persons@.len() == i,
                forall|j: int| 0 <= j < n ==> (#[trigger] names@[j])@ == tribe@[j].0,
                forall|j: int| 0 <= j < i ==> (#[trigger] persons@[j])@ == tribe@[j].0,
            decreases n - i,
        {
            persons.push(names[i].as_str());
            i = i + 1;
        }
        let mut relations = graph_with_nodes(n);
        let found = tribe.relations();
        let m: usize = found.len();
        proof {
            lemma_relations_between_persons(tribe@, tribe@.len() as int);
            assert(tribe@.take(tribe@.len() as int) =~= tribe@);
        }
        let mut k: usize = 0;
        while k < m
            invariant
                tribe.wf(),
                n == tribe@.len(),
                n < u32::MAX,
                m == found@.len(),
                m == relations_of(tribe@).len(),
                0 <= k <= m,
                forall|j: int|
                    0 <= j < m ==> (#[trigger] found@[j]).0@ == relations_of(tribe@)[j].0
                        && found@[j].1@ == relations_of(tribe@)[j].1 && found@[j].2
                        == relations_of(tribe@)[j].2,
                forall|j: int|
                    0 <= j < m ==> has_key(tribe@, (#[trigger] relations_of(tribe@)[j]).0)
                        && has_key(tribe@, relations_of(tribe@)[j].1),
                graph_rows(relations) == rows_after(tribe@, k as int),
                rows_wf(graph_rows(relations)),
                graph_rows(relations).len() == n,
            decreases m - k,
        {
            let (name1, name2, strength) = found[k];
            proof {
                assert(has_key(tribe@, relations_of(tribe@)[k as int].0));
                lemma_rank_parts(tribe@, name1@);
                lemma_rank_parts(tribe@, name2@);
            }
            let first = tribe.person_index(name1.as_str());
            let second = tribe.person_index(name2.as_str());
            match (first, second) {
                (Some(a), Some(b)) => {
                    proof {
                        lemma_add_edge_wf(graph_rows(relations), a as u32, b as u32, strength);
                    }
                    graph_add_edge(&mut relations, a as u32, b as u32, strength);
                },
                _ => {
                    assert(false);
                },
            }
            k = k + 1;
        }
        proof {
            assert(spelled(persons@) =~= persons_of(tribe@));
        }
        Ok((relations, persons))
    }

    /// A solver for these tables and this tribe, with nobody seated.
    pub fn new(tables: &'pb Tables, tribe: &'pb Tribe, settings: SolverSettings) -> (r:
        SolverResult<Self>)
        requires
            tribe.wf(),
        ensures
            match r {
                Ok(solver) => {
                    &&& too_large(tables@, tribe@) is None
                    &&& solver.wf()
                    &&& solver@ == initial(tables@, tribe@, settings.relation_values@)
                },
                Err(e) => too_large(tables@, tribe@) matches Some(reason) && e.is_too_large(
                    reason,
                ),
            },
    {
        let (table_names, table_sizes) = match Self::build_tables(tables) {
            Ok(built) => built,
            Err(e) => {
                return Err(e);
            },
        };
        let (relations, persons) = match Self::build_relations(tribe) {
            Ok(built) => built,
            Err(e) => {
                return Err(e);
            },
        };
        proof {
            lemma_dense_total(tables@);
        }
        let assignor = Assignor::from_table_sizes(table_sizes, tribe.persons_count() as u32);
        let values = settings.relation_values;
        let solver = Solver {
            assignor: AssignorWithCosts::new(assignor, relations, values),
            mapping: BackwardMapping::new(table_names, persons),
            settings,
        };
        proof {
            assert(solver@.costed.table_costs =~= initial(
                tables@,
                tribe@,
                settings.relation_values@,
            ).costed.table_costs);
        }
        Ok(solver)
    }
}

impl<'pb> Solver<'pb> {
    /// The seating as it stands, by name: every table, with the persons at
    /// it in the order of their seats.
    pub fn assignment(&self) -> (r: Assignment)
        requires
            self.wf(),
        ensures
            r.wf(),
            assignment_view(r@) == named_seating(self@),
    {
        let arena = self.assignor.deref();
        let n_tables: u32 = arena.table_count();
        let ghost names = self@.table_names;
        let ghost persons = self@.person_names;
        let ghost seated = self@.costed.seating.tables;
        proof {
            arena.lemma_valid();
        }
        let mut out: Assignment = NameMap::new();
        let mut table: u32 = 0;
        while table < n_tables
            invariant
                self.wf(),
                arena.wf(),
                arena@ == self@.costed.seating,
                arena@.valid(),
                names == self@.table_names,
                persons == self@.person_names,
                seated == self@.costed.seating.tables,
                n_tables == seated.len(),
                n_tables == names.len(),
                persons.len() == arena@.n_persons,
                0 <= table <= n_tables,
                out.wf(),
                assignment_view(out@) == named_tables(names, persons, seated, table as int),
            decreases n_tables - table,
        {
            let members = arena.table_persons(table);
            let n: usize = members.len();
            let mut person_names: Vec<String> = Vec::new();
            let mut i: usize = 0;
            while i < n
                invariant
                    arena@.valid(),
                    persons == self.mapping.person_names(),
                    persons.len() == arena@.n_persons,
                    0 <= table < arena@.tables.len(),
                    members@ == arena@.tables[table as int],
                    n == members@.len(),
                    0 <= i <= n,
                    person_names@.len() == i,
                    forall|j: int|
                        0 <= j < i ==> (#[trigger] person_names@[j])@ == persons[members@[j] as int],
                decreases n - i,
            {
                proof {
                    assert(arena@.tables[table as int][i as int] < arena@.n_persons);
                }
                let name = self.mapping.person_name(members[i]).unwrap();
                person_names.push(name.to_owned());
                i = i + 1;
            }
            let table_name = self.mapping.table_name(table).unwrap();
            proof {
                assert(spelled_strings(person_names@) =~= named(persons, seated[table as int]));
                lemma_assignment_put(out@, table_name@, person_names);
            }
            out.insert(table_name.to_owned(), person_names);
            table = table + 1;
        }
        out
    }

    /// Gives every person in turn, ascending by index, a seat at the open
    /// table that costs the person least, the first of them where several
    /// cost the same, and hands back the seating by name. Seats nobody where
    /// the persons outnumber the seats.
    pub fn solve(&mut self) -> (r: SolverResult<Assignment>)
        requires
            old(self).wf(),
        ensures
            final(self).wf(),
            final(self)@.table_names == old(self)@.table_names,
            final(self)@.person_names == old(self)@.person_names,
            match r {
                Ok(a) => {
                    &&& total(old(self)@.costed.seating.capacities) >= old(
                        self,
                    )@.costed.seating.n_persons
                    &&& final(self)@.costed == run_costed(
                        old(self)@.costed,
                        old(self)@.costed.seating.n_persons,
                    )
                    &&& a.wf()
                    &&& assignment_view(a@) == named_seating(final(self)@)
                },
                Err(e) => {
                    &&& total(old(self)@.costed.seating.capacities) < old(
                        self,
                    )@.costed.seating.n_persons
                    &&& e.is_no_solution(not_enough_seats())
                    &&& final(self)@ == old(self)@
                },
            },
    {
        let n_persons: u32 = self.assignor.deref().person_count();
        let n_tables: u32 = self.assignor.deref().table_count();
        if self.assignor.deref().seat_count() < n_persons {
            return Err(SolverError::NoSolution("there is not enough sitting space".to_owned()));
        }
        let ghost start = self@.costed;
        let mut person: u32 = 0;
        while person < n_persons
            invariant
                self.wf(),
                self@.table_names == old(self)@.table_names,
                self@.person_names == old(self)@.person_names,
                start == old(self)@.costed,
                n_persons == start.seating.n_persons,
                n_tables == start.seating.tables.len(),
                n_persons == self@.costed.seating.n_persons,
                n_tables == self@.costed.seating.tables.len(),
                0 <= person <= n_persons,
                self@.costed == run_costed(start, person as nat),
            decreases n_persons - person,
        {
            let ghost now = self@.costed;
            proof {
                lemma_run_costed(start, person as nat);
                self.assignor.lemma_valid();
            }
            let mut best: Option<(i64, u32)> = None;
            let mut table: u32 = 0;
            while table < n_tables
                invariant
                    self.wf(),
                    self@.costed == now,
                    person < now.seating.n_persons,
                    n_tables == now.seating.tables.len(),
                    0 <= table <= n_tables,
                    match best {
                        Some((cost, at)) => best_among(
                            now.seating,
                            now.rows,
                            now.values,
                            person,
                            table as int,
                            at as int,
                        ) && cost == join_cost(now.seating, now.rows, now.values, person, at as int),
                        None => forall|u: int| 0 <= u < table ==> !open_table(now.seating, u),
                    },
                decreases n_tables - table,
            {
                if !self.assignor.deref().table_is_full(table) {
                    let cost = self.assignor.assignment_cost(person, table);
                    let better = match best {
                        Some((least, _)) => cost < least,
                        None => true,
                    };
                    if better {
                        proof {
                            if let Some((least, at)) = best {
                                assert forall|u: int|
                                    0 <= u < table + 1 && #[trigger] open_table(
                                        now.seating,
                                        u,
                                    ) implies no_worse(
                                    now.seating,
                                    now.rows,
                                    now.values,
                                    person,
                                    table as int,
                                    u,
                                ) by {
                                    if u < table {
                                        assert(no_worse(
                                            now.seating,
                                            now.rows,
                                            now.values,
                                            person,
                                            at as int,
                                            u,
                                        ));
                                    }
                                }
                            }
                        }
                        best = Some((cost, table));
                    }
                }
                table = table + 1;
            }
            match best {
                Some((cost, at)) => {
                    proof {
                        assert(is_best(now.seating, now.rows, now.values, person, at as int));
                        lemma_best_unique(
                            now.seating,
                            now.rows,
                            now.values,
                            person,
                            at as int,
                            best_table(now.seating, now.rows, now.values, person),
                        );
                    }
                    self.assignor.assign_with_cost(person, at, cost);
                },
                None => {
                    proof {
                        if exists|t: int| is_best(now.seating, now.rows, now.values, person, t) {
                            let t = choose|t: int|
                                is_best(now.seating, now.rows, now.values, person, t);
                            assert(open_table(now.seating, t));
                        }
                        assert(best_table(now.seating, now.rows, now.values, person) == 0);
                        assert(!open_table(now.seating, 0));
                    }
                    if n_tables > 0 {
                        self.assignor.assign_with_cost(person, 0, 0);
                    }
                },
            }
            proof {
                assert(self@.costed == place_costed(now, person));
            }
            person = person + 1;
        }
        Ok(self.assignment())
    }
}

/// `r` is what solving the problem gives: the seating, or what stands in
/// its way.
pub open spec fn solved(
    tables: Seq<(Seq<char>, TableType)>,
    tribe: TribeView,
    r: SolverResult<Assignment>,
) -> bool {
    match r {
        Ok(a) => {
            &&& too_large(tables, tribe) is None
            &&& total(seat_counts(tables)) >= tribe.len()
            &&& a.wf()
            &&& assignment_view(a@) == solution(tables, tribe, default_values())
        },
        Err(e) => match too_large(tables, tribe) {
            Some(reason) => e.is_too_large(reason),
            None => total(seat_counts(tables)) < tribe.len() && e.is_no_solution(
                not_enough_seats(),
            ),
        },
    }
}

/// Seats the tribe at the tables. Every person in turn, ascending by name,
/// joins the open table that costs the person least, where a relation
/// weighs -4, -1, 1 or 4 by its strength; of several that cost the same,
/// the table with the fewest seats, and of these the first by name.
pub fn solve(tables: &Tables, tribe: &Tribe) -> (r: SolverResult<Assignment>)
    requires
        tables.wf(),
        tribe.wf(),
    ensures
        solved(tables@, tribe@, r),
        r matches Ok(a) ==> {
            &&& has_every_table(assignment_view(a@), tables@)
            &&& within_capacity(assignment_view(a@), tables@)
            &&& seats_each_once(assignment_view(a@), tribe@)
        },
{
    let settings = SolverSettings { relation_values: [-4, -1, 1, 4] };
    proof {
        assert(settings.relation_values@ =~= default_values());
        lemma_dense_total(tables@);
        if too_large(tables@, tribe@) is None && total(seat_counts(tables@)) >= tribe@.len() {
            lemma_solution_keys(tables@, tribe@, default_values());
            lemma_solution_capacity(tables@, tribe@, default_values());
            lemma_solution_partition(tables@, tribe@, default_values());
        }
    }
    let mut solver = match Solver::new(tables, tribe, settings) {
        Ok(solver) => solver,
        Err(e) => {
            return Err(e);
        },
    };
    proof {
        lemma_run_costed(solver@.costed, tribe@.len());
    }
    solver.solve()
}

} // verus!
