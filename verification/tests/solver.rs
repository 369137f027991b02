use std::collections::HashSet;

use optizoignons::assignor::Assignor;
use optizoignons::costs::{is_member, AssignorWithCosts};
use optizoignons::examples;
use optizoignons::graph::RelationGraph;
use optizoignons::model::{Assignment, RelationStrength, TableType, Tables, Tribe};
use optizoignons::name_map::NameMap;
use optizoignons::solver::{
    solve, BackwardMapping, Solver, SolverError, SolverResult, SolverSettings,
};

type Size = u32;

fn assign_in_order(assignor: &mut Assignor) {
    let mut tables = assignor.tables();
    let mut t = tables.next();
    let mut persons = assignor.persons();
    let mut p = persons.next();

    while t.is_some() && p.is_some() {
        if assignor.table_is_full(t.unwrap()) {
            t = tables.next();
        } else {
            let assigned = assignor.assign(p.unwrap(), t.unwrap());
            assert!(assigned);
            p = persons.next();
        }
    }
}

fn tables_of(sizes: &[(&str, u32)]) -> Tables {
    let mut tables: Tables = NameMap::new();
    for (name, n_seats) in sizes {
        tables.insert((*name).to_owned(), TableType { n_seats: *n_seats });
    }
    tables
}

fn tribe_of(persons: &[&str]) -> Tribe {
    let mut tribe = Tribe::new();
    for p in persons {
        tribe.add_person(p);
    }
    tribe
}

fn seating(assignment: &Assignment) -> Vec<(&str, Vec<&str>)> {
    assignment
        .entries()
        .iter()
        .map(|(t, ps)| (t.as_str(), ps.iter().map(String::as_str).collect()))
        .collect()
}

#[test]
fn test_backward_mapping() {
    let mapping = BackwardMapping::new(vec!["Oak"], vec!["A", "B"]);

    assert_eq!(mapping.table_name(0), Some("Oak"));
    assert_eq!(mapping.person_name(1), Some("B"));
    assert_eq!(mapping.person_name(3), None);
}

#[test]
fn test_assignor() {
    let tables = vec![3, 4, 4, 6];
    let n_persons: Size = 15;
    let mut assignor = Assignor::from_table_sizes(tables.clone(), n_persons);

    assert_eq!(assignor.table_count() as usize, tables.len());
    assert_eq!(assignor.seat_count(), tables.iter().sum::<u32>());
    assert_eq!(assignor.person_count(), n_persons);
    assert_eq!(
        assignor.persons().collect::<Vec<_>>(),
        (0..n_persons).collect::<Vec<_>>()
    );
    assert_eq!(
        assignor.tables().collect::<Vec<_>>(),
        (0u32..(tables.len() as u32)).collect::<Vec<_>>()
    );
    assert_eq!(
        assignor.table_assignment(),
        vec![(0, &[] as &[u32]), (1, &[]), (2, &[]), (3, &[]),]
    );

    assign_in_order(&mut assignor);
    assert_eq!(
        assignor.table_assignment(),
        vec![
            (0, &[0u32, 1, 2] as &[u32]),
            (1, &[3u32, 4, 5, 6] as &[u32]),
            (2, &[7u32, 8, 9, 10] as &[u32]),
            (3, &[11u32, 12, 13, 14 /* free, free */,] as &[u32]),
        ]
    );
}

#[test]
fn test_assignor_with_costs() {
    let tables = vec![2, 4];
    let n_persons: Size = 5;

    let mut assignor = {
        let assignor = Assignor::from_table_sizes(tables.clone(), n_persons);

        let mut relations = RelationGraph::with_nodes(n_persons as usize);
        relations.add_edge(0, 1, RelationStrength::Hates);
        relations.add_edge(0, 2, RelationStrength::Dislikes);
        relations.add_edge(0, 3, RelationStrength::Likes);
        relations.add_edge(0, 4, RelationStrength::Loves);
        relations.add_edge(1, 2, RelationStrength::Loves);
        relations.add_edge(1, 3, RelationStrength::Likes);
        relations.add_edge(1, 4, RelationStrength::Dislikes);

        let relations_values = [7, 1, -3, -9];

        AssignorWithCosts::new(assignor, relations, relations_values)
    };

    assert_eq!(assignor.person_count(), n_persons);
    assert_eq!(assignor.table_count() as usize, tables.len());

    for t in assignor.tables() {
        assert_eq!(assignor.table_cost(t) as f64, 0.0);
        for p in assignor.persons() {
            let cost = assignor.assignment_cost(p, t);
            assert_eq!(cost as f64, 0.0);
        }
    }

    let assigned = assignor.assign_with_cost(0, 0, 0);
    assert!(assigned);
    assert!(!assignor.assign_with_cost(0, 0, 0));
    let assigned = assignor.assign_with_cost(1, 1, 0);
    assert!(assigned);
    assert!(!assignor.assign_with_cost(1, 0, 0));
    assert!(!assignor.assign_with_cost(1, 1, 0));

    assert_eq!(assignor.assignment_cost(2, 0) as f64, 1.0);
    assert_eq!(assignor.assignment_cost(2, 1) as f64, -9.0);
    let assigned = assignor.assign_with_cost(2, 0, 1);
    assert!(assigned);
    // Unchanged the cost of new table is returned
    assert_eq!(assignor.assignment_cost(2, 1) as f64, -9.0);

    // Table 0 is full
    assert_eq!(assignor.assignment_cost(3, 0) as f64, -3.0);
    let assigned = assignor.assign_with_cost(3, 0, -3);
    assert!(!assigned);
}

#[test]
fn test_solver_empty() -> SolverResult<()> {
    let (tribe, tables) = examples::empty();
    let mut solver = Solver::new(
        &tables,
        &tribe,
        SolverSettings {
            relation_values: [-4, -1, 1, 4],
        },
    )?;
    let assignment = solver.solve()?;

    assert!(assignment.is_empty());

    Ok(())
}

#[test]
fn test_solver_harry_potter() -> SolverResult<()> {
    let (tribe, tables) = examples::harry_potter();
    let mut solver = Solver::new(
        &tables,
        &tribe,
        SolverSettings {
            relation_values: [-4, -1, 1, 4],
        },
    )?;
    let assignment = solver.solve()?;

    assert_eq!(assignment.len(), tables.len());
    for (t, _) in tables.entries() {
        assert!(assignment.contains_key(t));
    }

    let assignees = assignment
        .entries()
        .iter()
        .map(|(_, t)| t.iter())
        .flatten()
        .collect::<HashSet<_>>();
    assert_eq!(assignees.len(), tribe.persons_count());
    for p in tribe.persons() {
        assert!(assignees.contains(p));
    }

    Ok(())
}

#[test]
fn the_example_has_its_tables_and_persons() {
    let (tribe, tables) = examples::harry_potter();
    assert_eq!(
        tables.entries(),
        &[
            ("Moonstones".to_owned(), TableType { n_seats: 8 }),
            ("Niffler".to_owned(), TableType { n_seats: 6 }),
            ("Phoenix".to_owned(), TableType { n_seats: 12 }),
            ("Willow".to_owned(), TableType { n_seats: 6 }),
        ]
    );
    assert_eq!(tribe.persons_count(), 30);
    // Three of the forty relations stand between persons who have one already.
    assert_eq!(tribe.relations().len(), 37);
    assert_eq!(tribe.persons()[0], "Alicia Spinnet");
}

#[test]
fn two_persons_fill_one_table_in_order() {
    let tables = tables_of(&[("A", 2)]);
    let tribe = tribe_of(&["X", "Y"]);
    let assignment = solve(&tables, &tribe).unwrap();
    assert_eq!(seating(&assignment), vec![("A", vec!["X", "Y"])]);
}

#[test]
fn two_single_tables_take_one_person_each() {
    let tables = tables_of(&[("A", 1), ("B", 1)]);
    let tribe = tribe_of(&["X", "Y"]);
    let assignment = solve(&tables, &tribe).unwrap();
    assert_eq!(
        seating(&assignment),
        vec![("A", vec!["X"]), ("B", vec!["Y"])]
    );
}

#[test]
fn a_table_without_persons_stays_in_the_seating() {
    let tables = tables_of(&[("A", 3)]);
    let tribe = tribe_of(&[]);
    let assignment = solve(&tables, &tribe).unwrap();
    assert_eq!(seating(&assignment), vec![("A", vec![])]);
}

#[test]
fn four_persons_at_two_tables_whatever_their_relations() {
    let strengths = RelationStrength::iter();
    let persons = ["X", "Y", "Z", "W"];
    // Every choice of a strength, or of no relation, for three pairs.
    for code in 0..125usize {
        let mut tribe = tribe_of(&persons);
        let pairs = [("X", "Y"), ("Y", "Z"), ("W", "X")];
        let mut rest = code;
        for (a, b) in pairs {
            let pick = rest % 5;
            rest /= 5;
            if pick < 4 {
                tribe.add_relation(a, b, strengths[pick]);
            }
        }
        let tables = tables_of(&[("A", 2), ("B", 2)]);
        let assignment = solve(&tables, &tribe).unwrap();
        assert_eq!(assignment.len(), 2);
        let mut seen: Vec<&str> = Vec::new();
        for (_, seated) in assignment.entries() {
            assert!(seated.len() <= 2);
            seen.extend(seated.iter().map(String::as_str));
        }
        seen.sort();
        assert_eq!(seen, vec!["W", "X", "Y", "Z"]);
    }
}

#[test]
fn nothing_to_seat_gives_an_empty_seating() {
    let tables: Tables = NameMap::new();
    let tribe = Tribe::new();
    let assignment = solve(&tables, &tribe).unwrap();
    assert!(assignment.is_empty());
    assert_eq!(assignment.len(), 0);
}

#[test]
fn more_persons_than_seats_have_no_solution() {
    let tables = tables_of(&[("A", 1), ("B", 1)]);
    let tribe = tribe_of(&["X", "Y", "Z"]);
    assert_eq!(
        solve(&tables, &tribe),
        Err(SolverError::NoSolution(
            "there is not enough sitting space".to_owned()
        ))
    );
    let no_tables: Tables = NameMap::new();
    let one = tribe_of(&["X"]);
    assert!(matches!(solve(&no_tables, &one), Err(SolverError::NoSolution(_))));
}

#[test]
fn seats_that_an_index_cannot_count_are_too_many() {
    let tables = tables_of(&[("A", u32::MAX), ("B", 1)]);
    let tribe = tribe_of(&["X"]);
    assert_eq!(
        solve(&tables, &tribe),
        Err(SolverError::ProblemTooLarge(
            "there are too many seats".to_owned()
        ))
    );
    assert!(matches!(
        Solver::build_tables(&tables),
        Err(SolverError::ProblemTooLarge(_))
    ));
    // The largest number of seats that an index can count is not too large.
    let tables = tables_of(&[("A", u32::MAX - 1), ("B", 1)]);
    assert_eq!(
        Solver::build_tables(&tables),
        Ok((vec!["B", "A"], vec![1, u32::MAX - 1]))
    );
}

#[test]
fn errors_say_what_went_wrong() {
    assert_eq!(
        SolverError::ProblemTooLarge("there are too many tables".to_owned()).message(),
        "the problem is too large, there are too many tables (max 4294967295)"
    );
    assert_eq!(
        SolverError::NoSolution("there is not enough sitting space".to_owned()).message(),
        "no solution could be found, there is not enough sitting space"
    );
    assert_eq!(SolverError::Unknown.message(), "unknown error");
}

#[test]
fn tables_are_indexed_by_seats_then_by_name() {
    let tables = tables_of(&[("E", 4), ("D", 2), ("C", 4), ("B", 9), ("A", 2), ("F", 0)]);
    assert_eq!(
        Solver::build_tables(&tables),
        Ok((vec!["F", "A", "D", "C", "E", "B"], vec![0, 2, 2, 4, 4, 9]))
    );
}

#[test]
fn the_graph_has_one_edge_for_each_pair() {
    let mut tribe = Tribe::new();
    tribe.add_relation("B", "A", RelationStrength::Hates);
    tribe.add_relation("A", "B", RelationStrength::Loves);
    tribe.add_relation("C", "A", RelationStrength::Likes);
    tribe.add_person("D");
    let (graph, persons) = Solver::build_relations(&tribe).unwrap();
    assert_eq!(persons, vec!["A", "B", "C", "D"]);
    assert_eq!(graph.node_count(), 4);
    assert_eq!(graph.edge_count(), 2);
    let edges = |a: u32| -> Vec<(u32, RelationStrength)> {
        graph
            .neighbors_slice(a)
            .iter()
            .copied()
            .zip(graph.edges_slice(a).iter().copied())
            .collect()
    };
    // The relation from B to A was noted first, so it is the one.
    assert_eq!(
        edges(0),
        vec![(1, RelationStrength::Hates), (2, RelationStrength::Likes)]
    );
    assert_eq!(edges(1), vec![(0, RelationStrength::Hates)]);
    assert_eq!(edges(2), vec![(0, RelationStrength::Likes)]);
    assert_eq!(edges(3), vec![]);
}

#[test]
fn a_person_joins_the_table_that_costs_least() {
    // B hates A and loves C. A takes the first table, and B joins A there,
    // which costs -4 against 0 for the empty table. C finds the first
    // table full.
    let mut tribe = Tribe::new();
    tribe.add_relation("A", "B", RelationStrength::Hates);
    tribe.add_relation("B", "C", RelationStrength::Loves);
    let tables = tables_of(&[("S", 2), ("T", 2)]);
    let assignment = solve(&tables, &tribe).unwrap();
    assert_eq!(
        seating(&assignment),
        vec![("S", vec!["A", "B"]), ("T", vec!["C"])]
    );

    // B loves A: joining A costs 4, the empty table costs nothing.
    let mut tribe = Tribe::new();
    tribe.add_relation("A", "B", RelationStrength::Loves);
    let assignment = solve(&tables, &tribe).unwrap();
    assert_eq!(
        seating(&assignment),
        vec![("S", vec!["A"]), ("T", vec!["B"])]
    );
}

#[test]
fn of_tables_that_cost_the_same_the_smallest_comes_first() {
    // "Big" comes first by name, "Small" by seats.
    let tribe = tribe_of(&["X"]);
    let tables = tables_of(&[("Big", 5), ("Small", 1)]);
    let assignment = solve(&tables, &tribe).unwrap();
    assert_eq!(
        seating(&assignment),
        vec![("Big", vec![]), ("Small", vec!["X"])]
    );
}

#[test]
fn the_cost_of_a_table_is_the_sum_of_the_weights() {
    let assignor = Assignor::from_table_sizes(vec![3, 3], 4);
    let mut relations = RelationGraph::with_nodes(4);
    relations.add_edge(3, 0, RelationStrength::Hates);
    relations.add_edge(3, 1, RelationStrength::Loves);
    relations.add_edge(3, 2, RelationStrength::Likes);
    relations.add_edge(0, 1, RelationStrength::Dislikes);
    let mut costs = AssignorWithCosts::new(assignor, relations, [-40, -10, 10, 40]);
    assert!(costs.assign_with_cost(0, 0, 0));
    assert_eq!(costs.assignment_cost(1, 0), -10);
    assert!(costs.assign_with_cost(1, 0, -10));
    assert!(costs.assign_with_cost(2, 1, 0));
    assert_eq!(costs.assignment_cost(3, 0), 0);
    assert_eq!(costs.assignment_cost(3, 1), 10);
    assert_eq!(costs.table_cost(0), -10);
    assert_eq!(costs.table_cost(1), 0);
    assert!(costs.assign_with_cost(3, 0, 7));
    assert_eq!(costs.table_cost(0), -3);
    assert_eq!(costs.table_persons(0), &[0, 1, 3]);
}

#[test]
fn the_arena_answers_for_each_table_and_person() {
    let mut assignor = Assignor::from_table_sizes(vec![0, 2, 1], 3);
    assert_eq!(assignor.seat_count(), 3);
    assert!(assignor.table_is_full(0));
    assert!(!assignor.table_is_full(1));
    assert_eq!(assignor.table_seat_count(1), 2);
    assert_eq!(assignor.table_person_count(1), 0);
    assert_eq!(assignor.table_free_seat_offset(0), None);
    assert_eq!(assignor.table_free_seat_offset(1), Some(0));
    assert!(!assignor.person_is_seated(2));
    assert!(assignor.can_assign(2, 1));
    assert!(!assignor.can_assign(2, 0));
    assert!(!assignor.assign(2, 0));
    assert!(assignor.assign(2, 1));
    assert!(assignor.person_is_seated(2));
    assert!(!assignor.can_assign(2, 2));
    assert!(!assignor.assign(2, 2));
    assert_eq!(assignor.table_free_seat_offset(1), Some(1));
    assert_eq!(assignor.table_person_count(1), 1);
    assert!(assignor.assign(0, 1));
    assert!(assignor.table_is_full(1));
    assert_eq!(assignor.table_free_seat_offset(1), None);
    assert!(!assignor.assign(1, 1));
    assert_eq!(assignor.table_persons(1), &[2, 0]);
    assert_eq!(assignor.table_persons(2), &[] as &[u32]);
}

#[test]
fn a_copy_holds_what_the_arena_holds() {
    let assignor = Assignor::from_table_sizes(vec![2, 1], 3);
    let mut relations = RelationGraph::with_nodes(3);
    relations.add_edge(0, 1, RelationStrength::Loves);
    let mut costs = AssignorWithCosts::new(assignor, relations, [-4, -1, 1, 4]);
    assert!(costs.assign_with_cost(0, 0, 0));
    let mut copy = costs.clone();
    assert_eq!(copy.table_persons(0), &[0]);
    assert_eq!(copy.assignment_cost(1, 0), 4);
    assert!(copy.assign_with_cost(1, 0, 4));
    assert_eq!(copy.table_cost(0), 4);
    // The two are apart from now on.
    assert_eq!(costs.table_persons(0), &[0]);
    assert_eq!(costs.table_cost(0), 0);
    let arena: &Assignor = costs.as_ref();
    assert_eq!(arena.table_person_count(0), 1);
    assert_eq!(arena.clone().table_persons(0), &[0]);
    let graph: &RelationGraph = costs.as_ref();
    assert_eq!(graph.node_count(), 3);
    assert_eq!(graph.edge_count(), 1);

    let (tribe, tables) = examples::harry_potter();
    let settings = SolverSettings {
        relation_values: [-4, -1, 1, 4],
    };
    let mut solver = Solver::new(&tables, &tribe, settings).unwrap();
    let mut twin = solver.clone();
    assert_eq!(
        solver.solve().unwrap().entries(),
        twin.solve().unwrap().entries()
    );
}

#[test]
fn membership_is_found_by_looking() {
    assert!(is_member(&[4, 2, 9], 9));
    assert!(!is_member(&[4, 2, 9], 3));
    assert!(!is_member(&[], 0));
}

#[test]
fn solving_twice_gives_the_same_seating() {
    let (tribe, tables) = examples::harry_potter();
    let first = solve(&tables, &tribe).unwrap();
    let second = solve(&tables, &tribe).unwrap();
    assert_eq!(first.entries(), second.entries());
    let mut solver = Solver::new(
        &tables,
        &tribe,
        SolverSettings {
            relation_values: [-4, -1, 1, 4],
        },
    )
    .unwrap();
    let third = solver.solve().unwrap();
    let fourth = solver.solve().unwrap();
    assert_eq!(first.entries(), third.entries());
    assert_eq!(third.entries(), fourth.entries());
    for (name, seated) in first.entries() {
        assert!(seated.len() <= tables.get(name).unwrap().n_seats as usize);
    }
}
