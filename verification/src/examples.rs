//! A problem to start from.

use crate::model::{with_relation, RelationStrength, TableType, Tables, Tribe, TribeView};
use crate::name_map::{put, NameMap};
use vstd::prelude::*;

verus! {

/// One relation: who, how, and towards whom.
pub type Relation = (&'static str, RelationStrength, &'static str);

/// The relations of the example, as they are told.
pub const RELATIONS: [Relation; 40] = [
    ("Harry Potter", RelationStrength::Loves, "Ginny Weasley"),
    ("Harry Potter", RelationStrength::Likes, "Ron Weasley"),
    ("Harry Potter", RelationStrength::Likes, "Hermione Granger"),
    ("Harry Potter", RelationStrength::Likes, "Neville Longbottom"),
    ("Ginny Weasley", RelationStrength::Likes, "Luna Lovegood"),
    ("Ron Weasley", RelationStrength::Loves, "Hermione Granger"),
    ("Ron Weasley", RelationStrength::Dislikes, "Percy Weasley"),
    ("Hermione Granger", RelationStrength::Likes, "Neville Longbottom"),
    ("George Weasley", RelationStrength::Loves, "Angelina Johnson"),
    ("George Weasley", RelationStrength::Hates, "Percy Weasley"),
    ("Neville Longbottom", RelationStrength::Loves, "Hannah Abbott"),
    ("Neville Longbottom", RelationStrength::Likes, "Luna Lovegood"),
    ("Luna Lovegood", RelationStrength::Likes, "Rubeus Hagrid"),
    ("Minerva McGonagall", RelationStrength::Likes, "Harry Potter"),
    ("Kingsley Shacklebolt", RelationStrength::Likes, "Minerva McGonagall"),
    ("Percy Weasley", RelationStrength::Loves, "Audrey Weasley"),
    ("Seamus Finnigan", RelationStrength::Likes, "Dean Thomas"),
    ("Padma Patil", RelationStrength::Likes, "Parvati Patil"),
    ("Oliver Wood", RelationStrength::Likes, "Harry Potter"),
    ("Andromeda Tonks", RelationStrength::Likes, "Molly Weasley"),
    ("Harry Potter", RelationStrength::Dislikes, "Percy Weasley"),
    ("Ginny Weasley", RelationStrength::Dislikes, "Rita Skeeter"),
    ("Ron Weasley", RelationStrength::Hates, "Cormac McLaggen"),
    ("Hermione Granger", RelationStrength::Dislikes, "Rita Skeeter"),
    ("George Weasley", RelationStrength::Likes, "Lee Jordan"),
    ("Neville Longbottom", RelationStrength::Dislikes, "Cormac McLaggen"),
    ("Luna Lovegood", RelationStrength::Dislikes, "Rita Skeeter"),
    ("Minerva McGonagall", RelationStrength::Hates, "Rita Skeeter"),
    ("Kingsley Shacklebolt", RelationStrength::Likes, "Teddy Lupin"),
    ("Percy Weasley", RelationStrength::Dislikes, "George Weasley"),
    ("Seamus Finnigan", RelationStrength::Dislikes, "Cormac McLaggen"),
    ("Padma Patil", RelationStrength::Dislikes, "Cho Chang"),
    ("Parvati Patil", RelationStrength::Likes, "Lavender Brown"),
    ("Oliver Wood", RelationStrength::Dislikes, "Cormac McLaggen"),
    ("Rubeus Hagrid", RelationStrength::Hates, "Mundungus Fletcher"),
    ("Andromeda Tonks", RelationStrength::Likes, "Teddy Lupin"),
    ("Angelina Johnson", RelationStrength::Likes, "Alicia Spinnet"),
    ("Dean Thomas", RelationStrength::Likes, "Seamus Finnigan"),
    ("Susan Bones", RelationStrength::Likes, "Hannah Abbott"),
    ("Hannah Abbott", RelationStrength::Likes, "Neville Longbottom"),
];

/// The tribe that the first `n` relations make, noted one after another.
pub open spec fn tribe_of(relations: Seq<Relation>, n: int) -> TribeView
    decreases n,
{
    if n <= 0 {
        Seq::empty()
    } else {
        with_relation(
            tribe_of(relations, n - 1),
            relations[n - 1].0@,
            relations[n - 1].2@,
            relations[n - 1].1,
        )
    }
}

/// The tables of the example, put into the map one after another.
pub open spec fn example_tables() -> Seq<(Seq<char>, TableType)> {
    put(
        put(
            put(
                put(
                    Seq::<(Seq<char>, TableType)>::empty(),
                    "Phoenix"@,
                    TableType { n_seats: 12 },
                ),
                "Moonstones"@,
                TableType { n_seats: 8 },
            ),
            "Willow"@,
            TableType { n_seats: 6 },
        ),
        "Niffler"@,
        TableType { n_seats: 6 },
    )
}

/// The tribe of these relations, noted one after another.
pub fn make_tribe(relations: &[Relation]) -> (r: Tribe)
    ensures
        r.wf(),
        r@ == tribe_of(relations@, relations@.len() as int),
{
    let mut out = Tribe::new();
    let n: usize = relations.len();
    let mut i: usize = 0;
    while i < n
        invariant
            n == relations@.len(),
            0 <= i <= n,
            out.wf(),
            out@ == tribe_of(relations@, i as int),
        decreases n - i,
    {
        let (who, how, whom) = relations[i];
        out.add_relation(who, whom, how);
        i = i + 1;
    }
    out
}

/// Nobody to seat, and no table.
pub fn empty() -> (r: (Tribe, Tables))
    ensures
        r.0.wf(),
        r.1.wf(),
        r.0@ == TribeView::empty(),
        r.1@ == Seq::<(Seq<char>, TableType)>::empty(),
{
    (Tribe::new(), NameMap::new())
}

/// A wedding of four tables, and of the relations of the example noted one
/// after another: those that come after another one between the same two
/// persons are not taken.
pub fn harry_potter() -> (r: (Tribe, Tables))
    ensures
        r.0.wf(),
        r.1.wf(),
        r.0@ == tribe_of(RELATIONS@, 40),
        r.1@ == example_tables(),
{
    let tribe = make_tribe(&RELATIONS);
    let mut tables: Tables = NameMap::new();
    tables.insert("Phoenix".to_owned(), TableType { n_seats: 12 });
    tables.insert("Moonstones".to_owned(), TableType { n_seats: 8 });
    tables.insert("Willow".to_owned(), TableType { n_seats: 6 });
    tables.insert("Niffler".to_owned(), TableType { n_seats: 6 });
    (tribe, tables)
}

} // verus!
