use std::collections::HashSet;

use optizoignons::model::{RelationStrength, TableType, Tables, Tribe};
use optizoignons::name_map::NameMap;
use optizoignons::names::{name_less, name_order, NameOrder};

#[test]
fn test_tribe() {
    let mut tribe = Tribe::new();
    assert_eq!(tribe.persons_count(), 0);
    assert_eq!(tribe.persons().iter().count(), 0);
    assert_eq!(tribe.relations().iter().count(), 0);

    tribe.add_person("Antoine");
    assert_eq!(tribe.persons_count(), 1);
    assert_eq!(tribe.persons(), vec!["Antoine"]);
    assert_eq!(tribe.relations().iter().count(), 0);

    tribe.add_person("Mathieu");
    assert_eq!(tribe.persons_count(), 2);
    assert_eq!(
        tribe
            .persons()
            .into_iter()
            .map(AsRef::as_ref)
            .collect::<HashSet<&str>>(),
        HashSet::from(["Antoine", "Mathieu"]),
    );
    assert_eq!(tribe.relations().iter().count(), 0);

    tribe.add_relation("Antoine", "Mathieu", RelationStrength::Likes);
    tribe.add_relation("Antoine", "Charles", RelationStrength::Dislikes);
    assert_eq!(tribe.persons_count(), 3);
    assert_eq!(
        tribe
            .persons()
            .into_iter()
            .map(AsRef::as_ref)
            .collect::<HashSet<&str>>(),
        HashSet::from(["Charles", "Antoine", "Mathieu"]),
    );
    assert_eq!(tribe.relations().iter().count(), 2);
}

#[test]
fn persons_come_in_the_order_of_names() {
    let mut tribe = Tribe::new();
    tribe.add_person("Zoe");
    tribe.add_person("Adam");
    tribe.add_person("Émile");
    tribe.add_person("Mia");
    tribe.add_person("Ad");
    assert_eq!(tribe.persons(), vec!["Ad", "Adam", "Mia", "Zoe", "Émile"]);
    assert_eq!(tribe.person_index("Mia"), Some(2));
    assert_eq!(tribe.person_index("Nobody"), None);
}

#[test]
fn relations_come_by_first_then_second_name() {
    let mut tribe = Tribe::new();
    tribe.add_relation("B", "C", RelationStrength::Loves);
    tribe.add_relation("B", "A", RelationStrength::Hates);
    tribe.add_relation("A", "D", RelationStrength::Likes);
    let found: Vec<(String, String, RelationStrength)> = tribe
        .relations()
        .into_iter()
        .map(|(a, b, s)| (a.clone(), b.clone(), s))
        .collect();
    assert_eq!(
        found,
        vec![
            ("A".to_owned(), "D".to_owned(), RelationStrength::Likes),
            ("B".to_owned(), "A".to_owned(), RelationStrength::Hates),
            ("B".to_owned(), "C".to_owned(), RelationStrength::Loves),
        ]
    );
}

#[test]
fn two_persons_have_one_relation_at_most() {
    let mut tribe = Tribe::new();
    tribe.add_relation("B", "A", RelationStrength::Hates);
    tribe.add_relation("A", "B", RelationStrength::Loves);
    let found = tribe.relations();
    assert_eq!(found.len(), 1);
    assert_eq!(
        (found[0].0.as_str(), found[0].1.as_str(), found[0].2),
        ("B", "A", RelationStrength::Hates)
    );
    // The call still adds the persons that it names.
    let mut tribe = Tribe::new();
    tribe.add_relation("B", "A", RelationStrength::Hates);
    tribe.remove_person("A");
    tribe.add_relation("B", "A", RelationStrength::Likes);
    tribe.add_relation("A", "C", RelationStrength::Likes);
    tribe.add_relation("C", "A", RelationStrength::Hates);
    assert_eq!(tribe.persons(), vec!["A", "B", "C"]);
    assert_eq!(tribe.relations().len(), 2);
    // Once the relation is taken out, the other direction can be noted.
    tribe.remove_relation("B", "A");
    tribe.add_relation("A", "B", RelationStrength::Loves);
    let found = tribe.relations();
    assert_eq!(found.len(), 2);
    assert_eq!(
        (found[0].0.as_str(), found[0].1.as_str(), found[0].2),
        ("A", "B", RelationStrength::Loves)
    );
    // A person can have a relation to themselves, once.
    tribe.add_relation("B", "B", RelationStrength::Likes);
    tribe.add_relation("B", "B", RelationStrength::Hates);
    assert_eq!(tribe.relations().len(), 3);
}

#[test]
fn a_relation_noted_twice_keeps_its_first_strength() {
    let mut tribe = Tribe::new();
    tribe.add_relation("A", "B", RelationStrength::Likes);
    tribe.add_relation("A", "B", RelationStrength::Hates);
    let found = tribe.relations();
    assert_eq!(found.len(), 1);
    assert_eq!(found[0].2, RelationStrength::Likes);
}

#[test]
fn adding_a_person_again_clears_their_relations() {
    let mut tribe = Tribe::new();
    tribe.add_relation("A", "B", RelationStrength::Likes);
    tribe.add_relation("B", "C", RelationStrength::Loves);
    tribe.add_person("A");
    assert_eq!(tribe.persons_count(), 3);
    let found = tribe.relations();
    assert_eq!(found.len(), 1);
    assert_eq!(found[0].0, "B");
}

#[test]
fn removing_a_person_removes_their_relations() {
    let mut tribe = Tribe::new();
    tribe.add_relation("A", "B", RelationStrength::Likes);
    tribe.add_relation("B", "A", RelationStrength::Loves);
    tribe.add_relation("A", "A", RelationStrength::Loves);
    tribe.add_relation("C", "A", RelationStrength::Hates);
    tribe.add_relation("C", "B", RelationStrength::Dislikes);
    tribe.remove_person("A");
    assert_eq!(tribe.persons(), vec!["B", "C"]);
    let found = tribe.relations();
    assert_eq!(found.len(), 1);
    assert_eq!((found[0].0.as_str(), found[0].1.as_str()), ("C", "B"));
    tribe.remove_person("Nobody");
    assert_eq!(tribe.persons_count(), 2);
}

#[test]
fn removing_a_relation_keeps_the_persons() {
    let mut tribe = Tribe::new();
    tribe.add_relation("A", "B", RelationStrength::Likes);
    tribe.add_relation("B", "C", RelationStrength::Loves);
    tribe.remove_relation("A", "B");
    assert_eq!(tribe.persons_count(), 3);
    let found = tribe.relations();
    assert_eq!(found.len(), 1);
    assert_eq!(found[0].0, "B");
    tribe.remove_relation("A", "B");
    tribe.remove_relation("C", "B");
    tribe.remove_relation("Nobody", "B");
    assert_eq!(tribe.relations().len(), 1);
}

#[test]
fn strengths_run_from_hates_to_loves() {
    assert_eq!(RelationStrength::min(), RelationStrength::Hates);
    assert_eq!(RelationStrength::max(), RelationStrength::Loves);
    assert_eq!(RelationStrength::len(), 4);
    assert_eq!(
        RelationStrength::iter(),
        [
            RelationStrength::Hates,
            RelationStrength::Dislikes,
            RelationStrength::Likes,
            RelationStrength::Loves
        ]
    );
    for (i, s) in RelationStrength::iter().into_iter().enumerate() {
        assert_eq!(s.repr(), i);
        assert_eq!(RelationStrength::from_repr(i), Some(s));
    }
    assert_eq!(RelationStrength::from_repr(4), None);
    assert_eq!(RelationStrength::Hates.name(), "hates");
    assert_eq!(RelationStrength::Dislikes.name(), "dislikes");
    assert_eq!(RelationStrength::Likes.name(), "likes");
    assert_eq!(RelationStrength::Loves.name(), "loves");
}

#[test]
fn names_are_ordered_as_strings_are() {
    let names = ["", "a", "A", "ab", "abc", "b", "é", "z", "Zoe", "日本", "𝄞", "a\u{0}"];
    for a in names {
        for b in names {
            assert_eq!(name_less(a, b), a < b, "{a:?} < {b:?}");
            let expected = match a.cmp(b) {
                std::cmp::Ordering::Less => NameOrder::Before,
                std::cmp::Ordering::Equal => NameOrder::Same,
                std::cmp::Ordering::Greater => NameOrder::After,
            };
            assert_eq!(name_order(a, b), expected);
        }
    }
}

#[test]
fn a_name_map_is_a_map_in_the_order_of_names() {
    let mut tables: Tables = NameMap::new();
    assert!(tables.is_empty());
    assert_eq!(tables.insert("Oak".to_owned(), TableType { n_seats: 4 }), None);
    assert_eq!(tables.insert("Ash".to_owned(), TableType { n_seats: 2 }), None);
    assert_eq!(tables.insert("Yew".to_owned(), TableType { n_seats: 6 }), None);
    assert_eq!(
        tables.insert("Oak".to_owned(), TableType { n_seats: 5 }),
        Some(TableType { n_seats: 4 })
    );
    assert_eq!(tables.len(), 3);
    assert!(!tables.is_empty());
    let keys: Vec<&str> = tables.entries().iter().map(|e| e.0.as_str()).collect();
    assert_eq!(keys, vec!["Ash", "Oak", "Yew"]);
    assert_eq!(tables.key_at(1), "Oak");
    assert_eq!(tables.value_at(1), &TableType { n_seats: 5 });
    assert_eq!(tables.get("Oak"), Some(&TableType { n_seats: 5 }));
    assert_eq!(tables.get("Elm"), None);
    assert!(tables.contains_key("Yew"));
    assert!(!tables.contains_key("Ye"));
    assert_eq!(tables.search("Oak"), (true, 1));
    assert_eq!(tables.search("Pine"), (false, 2));
    tables.value_at_mut(0).n_seats = 3;
    assert_eq!(tables.get("Ash"), Some(&TableType { n_seats: 3 }));
    assert_eq!(tables.remove("Ash"), Some(TableType { n_seats: 3 }));
    assert_eq!(tables.remove("Ash"), None);
    assert_eq!(tables.len(), 2);
    assert_eq!(tables.key_at(0), "Oak");
}
