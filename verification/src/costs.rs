//! The seat arena together with the relation graph: what it costs to seat a
//! person at a table, and the cost that each table has run up.

use crate::assignor::{total, Assignor, Seating};
use crate::graph::{
    graph_clone, graph_edges, graph_rows, lemma_row_len, rows_wf, RelationGraph, Row,
};
use crate::model::RelationStrength;
use vstd::prelude::*;

verus! {

/// The weight of a relation, by its strength.
pub type Weight = i32;

/// The cost of seating one person at one table.
pub type Cost = i64;

/// What one edge adds to the cost of joining the members: the weight of its
/// strength where the other endpoint is a member, and nothing else.
pub open spec fn edge_cost(edge: (u32, RelationStrength), members: Seq<u32>, values: Seq<Weight>) -> int {
    if members.contains(edge.0) {
        values[edge.1.ordinal()] as int
    } else {
        0
    }
}

/// The cost of joining the members for a person with these edges: the sum
/// of the weights of the edges that lead to a member.
pub open spec fn row_cost(row: Row, members: Seq<u32>, values: Seq<Weight>) -> int
    decreases row.len(),
{
    if row.len() == 0 {
        0
    } else {
        row_cost(row.drop_last(), members, values) + edge_cost(row.last(), members, values)
    }
}

/// What an arena with costs holds.
pub struct Costed {
    pub seating: Seating,
    pub rows: Seq<Row>,
    pub values: Seq<Weight>,
    pub table_costs: Seq<int>,
}

impl Costed {
    /// The cost for the person of joining the table as it stands.
    pub open spec fn cost(self, person: u32, table: int) -> int {
        row_cost(self.rows[person as int], self.seating.tables[table], self.values)
    }

    /// The person takes the next free seat of the table, which runs up the
    /// cost given.
    pub open spec fn seat(self, person: u32, table: int, cost: int) -> Costed {
        Costed {
            seating: self.seating.seat(person, table),
            table_costs: self.table_costs.update(table, self.table_costs[table] + cost),
            ..self
        }
    }
}

/// Whether the person is among the members.
pub fn is_member(members: &[u32], person: u32) -> (r: bool)
    ensures
        r == members@.contains(person),
{
    let n: usize = members.len();
    let mut i: usize = 0;
    while i < n
        invariant
            n == members@.len(),
            0 <= i <= n,
            forall|j: int| 0 <= j < i ==> members@[j] != person,
        decreases n - i,
    {
        if members[i] == person {
            return true;
        }
        i = i + 1;
    }
    false
}

/// A seat arena, the relations between its persons, and each table's cost.
#[derive(Debug)]
pub struct AssignorWithCosts {
    assignor: Assignor,
    relations: RelationGraph,
    relations_values: [Weight; 4],
    table_costs: Vec<i128>,
}

impl View for AssignorWithCosts {
    type V = Costed;

    closed spec fn view(&self) -> Costed {
        Costed {
            seating: self.assignor@,
            rows: graph_rows(self.relations),
            values: self.relations_values@,
            table_costs: Seq::new(self.table_costs@.len(), |t: int| self.table_costs@[t] as int),
        }
    }
}

impl AssignorWithCosts {
    /// The invariant: a well-formed arena, a well-formed graph with one
    /// node for each person, and one cost for each table, within what its
    /// persons can have run up.
    pub closed spec fn wf(&self) -> bool {
        &&& self.assignor.wf()
        &&& rows_wf(graph_rows(self.relations))
        &&& graph_rows(self.relations).len() == self.assignor@.n_persons
        &&& self.table_costs@.len() == self.assignor@.tables.len()
        &&& forall|t: int|
            0 <= t < self.table_costs@.len() ==> -0x8000_0000_0000_0000
                * self.assignor@.tables[t].len() <= #[trigger] self.table_costs@[t]
                <= 0x8000_0000_0000_0000 * self.assignor@.tables[t].len()
    }

    /// The seat arena: it holds the seating, and is well-formed as the
    /// whole is.
    pub closed spec fn arena(&self) -> Assignor {
        self.assignor
    }

    /// The graph of relations: it holds the rows.
    pub closed spec fn graph(&self) -> RelationGraph {
        self.relations
    }

    /// What the invariant says of the arena and the graph.
    pub proof fn lemma_parts(&self)
        ensures
            self.arena()@ == self@.seating,
            graph_rows(self.graph()) == self@.rows,
            self.wf() ==> self.arena().wf(),
    {
    }

    /// What the invariant says of the view.
    pub proof fn lemma_valid(&self)
        requires
            self.wf(),
        ensures
            self@.seating.valid(),
            self@.seating.capacities.len() <= u32::MAX,
            self@.seating.n_persons <= u32::MAX,
            total(self@.seating.capacities) <= u32::MAX,
            rows_wf(self@.rows),
            self@.rows.len() == self@.seating.n_persons,
            self@.values.len() == 4,
            self@.table_costs.len() == self@.seating.tables.len(),
    {
        self.assignor.lemma_valid();
    }

    /// An arena with costs: nobody seated yet, no cost run up.
    pub fn new(assignor: Assignor, relations: RelationGraph, relations_values: [Weight; 4]) -> (r:
        Self)
        requires
            assignor.wf(),
            rows_wf(graph_rows(relations)),
            graph_rows(relations).len() == assignor@.n_persons,
        ensures
            r.wf(),
            r@ == (Costed {
                seating: assignor@,
                rows: graph_rows(relations),
                values: relations_values@,
                table_costs: Seq::new(assignor@.tables.len(), |t: int| 0int),
            }),
    {
        let n_tables: u32 = assignor.table_count();
        let table_costs: Vec<i128> = vec![0i128; n_tables as usize];
        let r = AssignorWithCosts { assignor, relations, relations_values, table_costs };
        proof {
            assert(r@.table_costs =~= Seq::new(assignor@.tables.len(), |t: int| 0int));
        }
        r
    }

    /// The cost that the table has run up.
    pub fn table_cost(&self, table: u32) -> (r: i128)
        requires
            self.wf(),
            table < self@.seating.tables.len(),
        ensures
            r == self@.table_costs[table as int],
    {
        self.table_costs[table as usize]
    }

    /// Seats the person at the table as `Assignor::assign` does, and where
    /// that seats the person, adds `cost` to what the table has run up.
    pub fn assign_with_cost(&mut self, person: u32, table: u32, cost: Cost) -> (r: bool)
        requires
            old(self).wf(),
            person < old(self)@.seating.n_persons,
            table < old(self)@.seating.tables.len(),
        ensures
            final(self).wf(),
            r == old(self)@.seating.can_seat(person, table as int),
            r ==> final(self)@ == old(self)@.seat(person, table as int, cost as int),
            !r ==> final(self)@ == old(self)@,
    {
        if self.assignor.assign(person, table) {
            let run_up: i128 = self.table_costs[table as usize];
            self.table_costs.set(table as usize, run_up + cost as i128);
            proof {
                assert(self@.table_costs =~= old(self)@.seat(
                    person,
                    table as int,
                    cost as int,
                ).table_costs);
            }
            true
        } else {
            false
        }
    }

    /// The cost for the person of joining the table as it stands: the sum of
    /// the weights of the person's relations to those who sit there.
    pub fn assignment_cost(&self, person: u32, table: u32) -> (r: Cost)
        requires
            self.wf(),
            person < self@.seating.n_persons,
            table < self@.seating.tables.len(),
        ensures
            r == self@.cost(person, table as int),
    {
        let table_persons = self.assignor.table_persons(table);
        let edges = graph_edges(&self.relations, person);
        let n: usize = edges.len();
        proof {
            self.assignor.lemma_valid();
            let row = graph_rows(self.relations)[person as int];
            assert forall|j: int| 0 <= j < row.len() implies (#[trigger] row[j]).0
                < self.assignor@.n_persons by {}
            lemma_row_len(row, self.assignor@.n_persons as int);
        }
        let mut sum: i64 = 0;
        let mut k: usize = 0;
        while k < n
            invariant
                n == edges@.len(),
                n <= u32::MAX,
                0 <= k <= n,
                sum == row_cost(edges@.take(k as int), table_persons@, self.relations_values@),
                -0x8000_0000 * k <= sum <= 0x8000_0000 * k,
            decreases n - k,
        {
            let (other, strength) = edges[k];
            proof {
                assert(edges@.take(k + 1).drop_last() =~= edges@.take(k as int));
                assert(edges@.take(k + 1).last() == edges@[k as int]);
            }
            if is_member(table_persons, other) {
                sum = sum + self.relations_values[strength.repr()] as i64;
            }
            k = k + 1;
        }
        proof {
            assert(edges@.take(n as int) =~= edges@);
        }
        sum
    }
}

impl core::ops::Deref for AssignorWithCosts {
    type Target = Assignor;

    /// The seat arena.
    fn deref(&self) -> (r: &Assignor)
        ensures
            r@ == self@.seating,
            self.wf() ==> r.wf(),
    {
        &self.assignor
    }
}

impl Clone for AssignorWithCosts {
    /// A copy that holds the same seating, relations, weights and costs.
    fn clone(&self) -> (r: Self)
        ensures
            r@ == self@,
            self.wf() ==> r.wf(),
    {
        let r = AssignorWithCosts {
            assignor: self.assignor.clone(),
            relations: graph_clone(&self.relations),
            relations_values: self.relations_values,
            table_costs: self.table_costs.clone(),
        };
        proof {
            assert(r.table_costs@ =~= self.table_costs@);
            assert(r@.table_costs =~= self@.table_costs);
        }
        r
    }
}

impl AsRef<Assignor> for AssignorWithCosts {
    /// The seat arena.
    fn as_ref(&self) -> &Assignor
        returns
            &self.arena(),
    {
        &self.assignor
    }
}

impl AsRef<RelationGraph> for AssignorWithCosts {
    /// The graph of relations.
    fn as_ref(&self) -> &RelationGraph
        returns
            &self.graph(),
    {
        &self.relations
    }
}

} // verus!
