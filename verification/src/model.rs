//! What the solver is asked: persons, their relations, and tables.

use crate::name_map::{
    ascending, has_key, lemma_index_of, lemma_put, lemma_rank_parts, lemma_same_keys,
    lemma_without, lookup, put, rank, without, NameMap,
};
use vstd::prelude::*;

verus! {

/// How one person stands to another, from worst to best.
#[derive(Clone, Copy, Debug, PartialEq, Eq, Structural, Hash)]
pub enum RelationStrength {
    Hates,
    Dislikes,
    Likes,
    Loves,
}

impl RelationStrength {
    /// The place of the strength in the order from worst to best.
    pub open spec fn ordinal(self) -> int {
        match self {
            RelationStrength::Hates => 0,
            RelationStrength::Dislikes => 1,
            RelationStrength::Likes => 2,
            RelationStrength::Loves => 3,
        }
    }

    /// The strength at a place of the order.
    pub open spec fn of_ordinal(n: int) -> RelationStrength {
        if n == 0 {
            RelationStrength::Hates
        } else if n == 1 {
            RelationStrength::Dislikes
        } else if n == 2 {
            RelationStrength::Likes
        } else {
            RelationStrength::Loves
        }
    }

    /// The worst strength.
    pub fn min() -> (r: Self)
        ensures
            r == RelationStrength::Hates,
            forall|s: RelationStrength| r.ordinal() <= s.ordinal(),
    {
        RelationStrength::Hates
    }

    /// The best strength.
    pub fn max() -> (r: Self)
        ensures
            r == RelationStrength::Loves,
            forall|s: RelationStrength| s.ordinal() <= r.ordinal(),
    {
        RelationStrength::Loves
    }

    /// The number of strengths.
    pub fn len() -> (r: usize)
        ensures
            r == 4,
    {
        4
    }

    /// All strengths, from worst to best.
    pub fn iter() -> (r: [RelationStrength; 4])
        ensures
            forall|i: int| 0 <= i < 4 ==> (#[trigger] r[i]).ordinal() == i,
    {
        [
            RelationStrength::Hates,
            RelationStrength::Dislikes,
            RelationStrength::Likes,
            RelationStrength::Loves,
        ]
    }

    /// The place of the strength in the order from worst to best.
    pub fn repr(self) -> (r: usize)
        ensures
            r == self.ordinal(),
    {
        match self {
            RelationStrength::Hates => 0,
            RelationStrength::Dislikes => 1,
            RelationStrength::Likes => 2,
            RelationStrength::Loves => 3,
        }
    }

    /// The strength at a place of the order, if the place is one.
    pub fn from_repr(discriminant: usize) -> (r: Option<Self>)
        ensures
            r == if discriminant < 4 {
                Some(RelationStrength::of_ordinal(discriminant as int))
            } else {
                None
            },
    {
        if discriminant == 0 {
            Some(RelationStrength::Hates)
        } else if discriminant == 1 {
            Some(RelationStrength::Dislikes)
        } else if discriminant == 2 {
            Some(RelationStrength::Likes)
        } else if discriminant == 3 {
            Some(RelationStrength::Loves)
        } else {
            None
        }
    }

    /// The strength's name, in lower case.
    pub fn name(self) -> (r: &'static str)
        ensures
            r@ == match self {
                RelationStrength::Hates => "hates"@,
                RelationStrength::Dislikes => "dislikes"@,
                RelationStrength::Likes => "likes"@,
                RelationStrength::Loves => "loves"@,
            },
    {
        match self {
            RelationStrength::Hates => "hates",
            RelationStrength::Dislikes => "dislikes",
            RelationStrength::Likes => "likes",
            RelationStrength::Loves => "loves",
        }
    }
}

/// A strength and its place in the order determine each other.
pub proof fn lemma_ordinal_round_trip(s: RelationStrength, n: int)
    ensures
        0 <= s.ordinal() < 4,
        RelationStrength::of_ordinal(s.ordinal()) == s,
        0 <= n < 4 ==> RelationStrength::of_ordinal(n).ordinal() == n,
{
}

/// The relations of one person: the other person's name and the strength.
pub type Relations = Seq<(Seq<char>, RelationStrength)>;

/// What a tribe holds: each person's name with the relations noted under
/// it, in the order of names.
pub type TribeView = Seq<(Seq<char>, Relations)>;

/// Persons and relations stand in the order of names, no name occurs twice
/// in one list, and relations stand between persons of the tribe only.
pub open spec fn tribe_ordered(s: TribeView) -> bool {
    &&& ascending(s)
    &&& forall|i: int| 0 <= i < s.len() ==> ascending(#[trigger] s[i].1)
    &&& forall|i: int, j: int|
        0 <= i < s.len() && 0 <= j < s[i].1.len() ==> has_key(s, #[trigger] s[i].1[j].0)
}

/// A relation is noted from the first person to the second.
pub open spec fn notes(s: TribeView, name1: Seq<char>, name2: Seq<char>) -> bool {
    has_key(relations_from(s, name1), name2)
}

/// A relation is noted between the two persons, in one direction or the
/// other.
pub open spec fn related(s: TribeView, name1: Seq<char>, name2: Seq<char>) -> bool {
    notes(s, name1, name2) || notes(s, name2, name1)
}

/// No two persons have a relation noted in both directions.
pub open spec fn one_way(s: TribeView) -> bool {
    forall|name1: Seq<char>, name2: Seq<char>|
        name1 != name2 && #[trigger] notes(s, name1, name2) ==> !notes(s, name2, name1)
}

/// The tribe's invariant: persons and relations stand in the order of
/// names, relations stand between persons of the tribe, and two persons
/// have at most one relation between them.
pub open spec fn tribe_wf(s: TribeView) -> bool {
    tribe_ordered(s) && one_way(s)
}

/// The tribe with the person, who has no relations noted.
pub open spec fn with_person(s: TribeView, name: Seq<char>) -> TribeView {
    put(s, name, Seq::<(Seq<char>, RelationStrength)>::empty())
}

/// The tribe with no relation towards the person.
pub open spec fn forget(s: TribeView, name: Seq<char>) -> TribeView {
    Seq::new(s.len(), |i: int| (s[i].0, without(s[i].1, name)))
}

/// The tribe without the person and without any relation from or towards
/// them.
pub open spec fn without_person(s: TribeView, name: Seq<char>) -> TribeView {
    without(forget(s, name), name)
}

/// The relations noted under a person; none for a stranger.
pub open spec fn relations_from(s: TribeView, name: Seq<char>) -> Relations {
    match lookup(s, name) {
        Some(r) => r,
        None => Seq::empty(),
    }
}

/// The tribe with both persons and with the relation from the first to the
/// second, unless a relation between the two is noted already, in either
/// direction.
pub open spec fn with_relation(
    s: TribeView,
    name1: Seq<char>,
    name2: Seq<char>,
    strength: RelationStrength,
) -> TribeView {
    let a = if has_key(s, name2) {
        s
    } else {
        with_person(s, name2)
    };
    let noted = relations_from(a, name1);
    put(
        a,
        name1,
        if related(a, name1, name2) {
            noted
        } else {
            put(noted, name2, strength)
        },
    )
}

/// The tribe without the relation from the first person to the second.
pub open spec fn without_relation(s: TribeView, name1: Seq<char>, name2: Seq<char>) -> TribeView {
    match lookup(s, name1) {
        Some(r) => put(s, name1, without(r, name2)),
        None => s,
    }
}

/// The names of the persons, ascending.
pub open spec fn persons_of(s: TribeView) -> Seq<Seq<char>> {
    Seq::new(s.len(), |i: int| s[i].0)
}

/// The relations noted under one person, each with that person's name first.
pub open spec fn relations_under(name: Seq<char>, r: Relations) -> Seq<
    (Seq<char>, Seq<char>, RelationStrength),
> {
    Seq::new(r.len(), |j: int| (name, r[j].0, r[j].1))
}

/// All relations: by the first person's name, then by the second's.
pub open spec fn relations_of(s: TribeView) -> Seq<(Seq<char>, Seq<char>, RelationStrength)>
    decreases s.len(),
{
    if s.len() == 0 {
        Seq::empty()
    } else {
        relations_of(s.drop_last()) + relations_under(s.last().0, s.last().1)
    }
}

/// Persons by name, and what relations they have to one another.
#[derive(Clone, Debug)]
pub struct Tribe {
    directed_relations: NameMap<NameMap<RelationStrength>>,
}

impl View for Tribe {
    type V = TribeView;

    closed spec fn view(&self) -> TribeView {
        deep(self.directed_relations@)
    }
}

/// The names and relations that a map of maps holds.
pub open spec fn deep(m: Seq<(Seq<char>, NameMap<RelationStrength>)>) -> TribeView {
    Seq::new(m.len(), |i: int| (m[i].0, m[i].1@))
}

/// Whether a name occurs in a map of maps, and where it belongs, shows in
/// what the map holds.
pub proof fn lemma_deep_keys(m: Seq<(Seq<char>, NameMap<RelationStrength>)>, name: Seq<char>)
    ensures
        has_key(deep(m), name) == has_key(m, name),
        rank(deep(m), name) == rank(m, name),
        ascending(deep(m)) == ascending(m),
        ascending(m) && has_key(m, name) ==> lookup(deep(m), name) == Some(
            lookup(m, name).unwrap()@,
        ),
{
    lemma_same_keys(deep(m), m, name);
    if ascending(m) && has_key(m, name) {
        let j = crate::name_map::index_of(m, name);
        assert(deep(m)[j].0 == name);
        lemma_index_of(deep(m), j);
    }
}

/// Putting a map under a name puts what it holds under that name.
pub proof fn lemma_deep_put(
    m: Seq<(Seq<char>, NameMap<RelationStrength>)>,
    name: Seq<char>,
    value: NameMap<RelationStrength>,
)
    requires
        ascending(m),
    ensures
        deep(put(m, name, value)) == put(deep(m), name, value@),
{
    lemma_deep_keys(m, name);
    lemma_rank_parts(m, name);
    assert(deep(put(m, name, value)) =~= put(deep(m), name, value@));
}

/// Taking a name out of a map of maps takes it out of what the map holds.
pub proof fn lemma_deep_without(m: Seq<(Seq<char>, NameMap<RelationStrength>)>, name: Seq<char>)
    requires
        ascending(m),
    ensures
        deep(without(m, name)) == without(deep(m), name),
{
    lemma_deep_keys(m, name);
    lemma_rank_parts(m, name);
    assert(deep(without(m, name)) =~= without(deep(m), name));
}

impl Tribe {
    /// The tribe's invariant.
    pub open spec fn wf(&self) -> bool {
        tribe_wf(self@)
    }

    /// A tribe without persons.
    pub fn new() -> (r: Self)
        ensures
            r.wf(),
            r@ == TribeView::empty(),
    {
        let r = Tribe { directed_relations: NameMap::new() };
        assert(r@ =~= TribeView::empty());
        r
    }

    /// The number of persons.
    pub fn persons_count(&self) -> (r: usize)
        ensures
            r == self@.len(),
    {
        self.directed_relations.len()
    }

    /// The place of the person among the persons, ascending by name.
    pub fn person_index(&self, name: &str) -> (r: Option<usize>)
        requires
            self.wf(),
        ensures
            r == if has_key(self@, name@) {
                Some(rank(self@, name@) as usize)
            } else {
                None
            },
            r is Some ==> r->0 < self@.len() && self@[r->0 as int].0 == name@,
    {
        proof {
            lemma_deep_keys(self.directed_relations@, name@);
            lemma_rank_parts(self@, name@);
        }
        let (found, at) = self.directed_relations.search(name);
        if found {
            Some(at)
        } else {
            None
        }
    }

    /// The names of the persons, ascending.
    pub fn persons(&self) -> (r: Vec<&String>)
        ensures
            r@.len() == self@.len(),
            forall|i: int| 0 <= i < r@.len() ==> (#[trigger] r@[i])@ == self@[i].0,
    {
        let n: usize = self.directed_relations.len();
        let mut out: Vec<&String> = Vec::new();
        let mut i: usize = 0;
        while i < n
            invariant
                n == self@.len(),
                n == self.directed_relations@.len(),
                0 <= i <= n,
                out@.len() == i,
                forall|j: int| 0 <= j < i ==> (#[trigger] out@[j])@ == self@[j].0,
            decreases n - i,
        {
            out.push(self.directed_relations.key_at(i));
            i = i + 1;
        }
        out
    }
}

impl Tribe {
    /// Adds the person. One who is there already loses the relations noted
    /// under their name.
    pub fn add_person(&mut self, name: &str)
        requires
            old(self).wf(),
        ensures
            final(self).wf(),
            final(self)@ == with_person(old(self)@, name@),
    {
        let fresh: NameMap<RelationStrength> = NameMap::new();
        proof {
            lemma_deep_keys(self.directed_relations@, name@);
            lemma_deep_put(self.directed_relations@, name@, fresh);
            lemma_with_person_wf(self@, name@);
        }
        self.directed_relations.insert(name.to_owned(), fresh);
    }

    /// Takes the person out, with every relation from or towards them.
    pub fn remove_person(&mut self, name: &str)
        requires
            old(self).wf(),
        ensures
            final(self).wf(),
            final(self)@ == without_person(old(self)@, name@),
    {
        let n: usize = self.directed_relations.len();
        let mut i: usize = 0;
        while i < n
            invariant
                n == old(self)@.len(),
                self@.len() == n,
                0 <= i <= n,
                tribe_wf(old(self)@),
                self.directed_relations@.len() == n,
                forall|j: int| 0 <= j < n ==> (#[trigger] self@[j]).0 == old(self)@[j].0,
                forall|j: int|
                    0 <= j < i ==> (#[trigger] self@[j]).1 == without(old(self)@[j].1, name@),
                forall|j: int| i <= j < n ==> (#[trigger] self@[j]).1 == old(self)@[j].1,
            decreases n - i,
        {
            let ghost before = self.directed_relations@;
            assert(deep(before)[i as int].1 == old(self)@[i as int].1);
            assert(ascending(old(self)@[i as int].1));
            let neighbors = self.directed_relations.value_at_mut(i);
            neighbors.remove(name);
            proof {
                let after = self.directed_relations@;
                assert(after.len() == before.len());
                assert forall|j: int| 0 <= j < n implies (#[trigger] self@[j]).0 == old(
                    self,
                )@[j].0 && self@[j].1 == (if j <= i {
                    without(old(self)@[j].1, name@)
                } else {
                    old(self)@[j].1
                }) by {
                    assert(deep(before)[j].0 == old(self)@[j].0);
                    if j != i {
                        assert(after[j] == before[j]);
                        assert(deep(before)[j].1 == self@[j].1);
                    }
                }
            }
            i = i + 1;
        }
        proof {
            assert(self@ =~= forget(old(self)@, name@));
            lemma_deep_keys(self.directed_relations@, name@);
            lemma_deep_without(self.directed_relations@, name@);
            lemma_without_person_wf(old(self)@, name@);
        }
        self.directed_relations.remove(name);
    }

    /// Notes the relation from the first person to the second, unless a
    /// relation between the two is noted already, in either direction. Adds
    /// either person if need be.
    pub fn add_relation(&mut self, name1: &str, name2: &str, strength: RelationStrength)
        requires
            old(self).wf(),
        ensures
            final(self).wf(),
            final(self)@ == with_relation(old(self)@, name1@, name2@, strength),
    {
        proof {
            lemma_deep_keys(self.directed_relations@, name2@);
            lemma_with_person_wf(self@, name2@);
            lemma_with_relation_wf(self@, name1@, name2@, strength);
        }
        if !self.directed_relations.contains_key(name2) {
            let fresh: NameMap<RelationStrength> = NameMap::new();
            proof {
                lemma_deep_put(self.directed_relations@, name2@, fresh);
            }
            self.directed_relations.insert(name2.to_owned(), fresh);
        }
        let ghost a = self@;
        let ghost noted = relations_from(a, name1@);
        proof {
            lemma_deep_keys(self.directed_relations@, name1@);
            lemma_deep_keys(self.directed_relations@, name2@);
            lemma_rank_parts(a, name1@);
            lemma_relations_from(a, name1@);
            lemma_relations_from(a, name2@);
        }
        let reverse = match self.directed_relations.get(name2) {
            Some(row) => row.contains_key(name1),
            None => false,
        };
        assert(reverse == notes(a, name2@, name1@));
        let (found, at) = self.directed_relations.search(name1);
        if !found {
            let fresh: NameMap<RelationStrength> = NameMap::new();
            proof {
                lemma_deep_put(self.directed_relations@, name1@, fresh);
            }
            self.directed_relations.insert(name1.to_owned(), fresh);
        } else {
            proof {
                lemma_index_of(a, at as int);
            }
        }
        let ghost b = self@;
        let ghost before = self.directed_relations@;
        proof {
            assert(b[at as int] == (name1@, noted));
            assert(b.len() == a.len() + if found { 0int } else { 1int });
        }
        if !reverse {
            let neighbors = self.directed_relations.value_at_mut(at);
            if !neighbors.contains_key(name2) {
                neighbors.insert(name2.to_owned(), strength);
            }
        }
        proof {
            let updated = if related(a, name1@, name2@) {
                noted
            } else {
                put(noted, name2@, strength)
            };
            assert(self@ =~= b.update(at as int, (name1@, updated)));
            assert(self@ =~= put(a, name1@, updated));
        }
    }

    /// Takes out the relation from the first person to the second.
    pub fn remove_relation(&mut self, name1: &str, name2: &str)
        requires
            old(self).wf(),
        ensures
            final(self).wf(),
            final(self)@ == without_relation(old(self)@, name1@, name2@),
    {
        proof {
            lemma_deep_keys(self.directed_relations@, name1@);
            lemma_rank_parts(self@, name1@);
            lemma_relations_from(self@, name1@);
            lemma_without_relation_wf(self@, name1@, name2@);
        }
        let (found, at) = self.directed_relations.search(name1);
        if found {
            proof {
                lemma_index_of(self@, at as int);
            }
            let neighbors = self.directed_relations.value_at_mut(at);
            neighbors.remove(name2);
            proof {
                let r = old(self)@[at as int].1;
                assert(self@ =~= old(self)@.update(at as int, (name1@, without(r, name2@))));
            }
        }
    }

    /// All relations: by the first person's name, then by the second's.
    pub fn relations(&self) -> (r: Vec<(&String, &String, RelationStrength)>)
        ensures
            r@.len() == relations_of(self@).len(),
            forall|k: int|
                0 <= k < r@.len() ==> (#[trigger] r@[k]).0@ == relations_of(self@)[k].0 && r@[k].1@
                    == relations_of(self@)[k].1 && r@[k].2 == relations_of(self@)[k].2,
    {
        let n: usize = self.directed_relations.len();
        let mut out: Vec<(&String, &String, RelationStrength)> = Vec::new();
        let mut i: usize = 0;
        while i < n
            invariant
                n == self@.len(),
                n == self.directed_relations@.len(),
                0 <= i <= n,
                out@.len() == relations_of(self@.take(i as int)).len(),
                forall|k: int|
                    0 <= k < out@.len() ==> (#[trigger] out@[k]).0@ == relations_of(
                        self@.take(i as int),
                    )[k].0 && out@[k].1@ == relations_of(self@.take(i as int))[k].1 && out@[k].2
                        == relations_of(self@.take(i as int))[k].2,
            decreases n - i,
        {
            let name = self.directed_relations.key_at(i);
            let neighbors = self.directed_relations.value_at(i);
            let m: usize = neighbors.len();
            let ghost done = relations_of(self@.take(i as int));
            let ghost under = relations_under(self@[i as int].0, self@[i as int].1);
            proof {
                assert(self@.take(i + 1).drop_last() =~= self@.take(i as int));
                assert(relations_of(self@.take(i + 1)) == done + under);
            }
            let mut j: usize = 0;
            while j < m
                invariant
                    0 <= i < n,
                    n == self@.len(),
                    n == self.directed_relations@.len(),
                    name@ == self@[i as int].0,
                    *neighbors == self.directed_relations@[i as int].1,
                    m == neighbors@.len(),
                    under == relations_under(self@[i as int].0, self@[i as int].1),
                    0 <= j <= m,
                    out@.len() == done.len() + j,
                    forall|k: int|
                        0 <= k < out@.len() ==> (#[trigger] out@[k]).0@ == (done + under)[k].0
                            && out@[k].1@ == (done + under)[k].1 && out@[k].2 == (done
                            + under)[k].2,
                decreases m - j,
            {
                let other = neighbors.key_at(j);
                let strength = *neighbors.value_at(j);
                out.push((name, other, strength));
                j = j + 1;
            }
            i = i + 1;
        }
        proof {
            assert(self@.take(n as int) =~= self@);
        }
        out
    }
}

/// Every relation of a tribe stands between two of its persons.
pub proof fn lemma_relations_between_persons(s: TribeView, n: int)
    requires
        tribe_ordered(s),
        0 <= n <= s.len(),
    ensures
        forall|k: int|
            0 <= k < relations_of(s.take(n)).len() ==> has_key(
                s,
                (#[trigger] relations_of(s.take(n))[k]).0,
            ) && has_key(s, relations_of(s.take(n))[k].1),
    decreases n,
{
    if n > 0 {
        lemma_relations_between_persons(s, n - 1);
        assert(s.take(n).drop_last() =~= s.take(n - 1));
        let done = relations_of(s.take(n - 1));
        let under = relations_under(s[n - 1].0, s[n - 1].1);
        assert(relations_of(s.take(n)) == done + under);
        assert forall|k: int| 0 <= k < relations_of(s.take(n)).len() implies has_key(
            s,
            (#[trigger] relations_of(s.take(n))[k]).0,
        ) && has_key(s, relations_of(s.take(n))[k].1) by {
            if k >= done.len() {
                let j = k - done.len();
                assert(relations_of(s.take(n))[k] == under[j]);
                assert(has_key(s, s[n - 1].1[j].0));
                lemma_index_of(s, n - 1);
            } else {
                assert(relations_of(s.take(n))[k] == done[k]);
            }
        }
    }
}

/// Putting relations between persons of the tribe under a name keeps the
/// tribe's invariant, and nobody leaves.
pub proof fn lemma_put_relations_ordered(s: TribeView, name: Seq<char>, noted: Relations)
    requires
        tribe_ordered(s),
        ascending(noted),
        forall|j: int|
            0 <= j < noted.len() ==> has_key(s, #[trigger] noted[j].0) || noted[j].0 == name,
    ensures
        tribe_ordered(put(s, name, noted)),
        has_key(put(s, name, noted), name),
        forall|other: Seq<char>| has_key(s, other) ==> has_key(put(s, name, noted), other),
{
    let p = put(s, name, noted);
    lemma_put(s, name, noted);
    lemma_rank_parts(s, name);
    let r = rank(s, name);
    assert(p[r].0 == name);
    assert forall|other: Seq<char>| has_key(s, other) implies has_key(p, other) by {}
    assert forall|i: int| 0 <= i < p.len() implies ascending(#[trigger] p[i].1) by {
        if i != r {
            let oi = if has_key(s, name) || i < r { i } else { i - 1 };
            assert(p[i] == s[oi]);
            assert(ascending(s[oi].1));
        }
    }
    assert forall|i: int, j: int| 0 <= i < p.len() && 0 <= j < p[i].1.len() implies has_key(
        p,
        #[trigger] p[i].1[j].0,
    ) by {
        if i != r {
            let oi = if has_key(s, name) || i < r { i } else { i - 1 };
            assert(p[i] == s[oi]);
            assert(has_key(s, s[oi].1[j].0));
        } else {
            assert(has_key(s, noted[j].0) || noted[j].0 == name);
        }
    }
}

/// Adding a person keeps the tribe's invariant.
pub proof fn lemma_with_person_ordered(s: TribeView, name: Seq<char>)
    requires
        tribe_ordered(s),
    ensures
        tribe_ordered(with_person(s, name)),
        has_key(with_person(s, name), name),
        forall|other: Seq<char>| has_key(s, other) ==> has_key(with_person(s, name), other),
{
    lemma_put_relations_ordered(s, name, Seq::<(Seq<char>, RelationStrength)>::empty());
}

/// The relations noted under a name stand in order and between persons.
pub proof fn lemma_relations_from(s: TribeView, name: Seq<char>)
    requires
        tribe_ordered(s),
    ensures
        ascending(relations_from(s, name)),
        forall|j: int|
            0 <= j < relations_from(s, name).len() ==> has_key(
                s,
                #[trigger] relations_from(s, name)[j].0,
            ),
{
    if has_key(s, name) {
        let i = crate::name_map::index_of(s, name);
        assert(ascending(s[i].1));
        assert forall|j: int| 0 <= j < s[i].1.len() implies has_key(s, #[trigger] s[i].1[j].0) by {}
    }
}

/// Taking a person out keeps the tribe's invariant.
pub proof fn lemma_without_person_ordered(s: TribeView, name: Seq<char>)
    requires
        tribe_ordered(s),
    ensures
        ascending(forget(s, name)),
        tribe_ordered(without_person(s, name)),
{
    let f = forget(s, name);
    assert forall|i: int, j: int| 0 <= i < j < f.len() implies crate::names::name_lt(
        #[trigger] f[i].0,
        #[trigger] f[j].0,
    ) by {
        assert(crate::names::name_lt(s[i].0, s[j].0));
    }
    lemma_without(f, name);
    lemma_rank_parts(f, name);
    let w = without(f, name);
    let r = rank(f, name);
    assert forall|i: int| 0 <= i < w.len() implies ascending(#[trigger] w[i].1) by {
        let oi = if has_key(f, name) && i >= r { i + 1 } else { i };
        assert(w[i] == f[oi]);
        assert(ascending(s[oi].1));
        lemma_without(s[oi].1, name);
    }
    assert forall|i: int, j: int| 0 <= i < w.len() && 0 <= j < w[i].1.len() implies has_key(
        w,
        #[trigger] w[i].1[j].0,
    ) by {
        let oi = if has_key(f, name) && i >= r { i + 1 } else { i };
        assert(w[i] == f[oi]);
        assert(ascending(s[oi].1));
        lemma_without(s[oi].1, name);
        let inner = w[i].1;
        let k = inner[j].0;
        lemma_index_of(inner, j);
        assert(k != name);
        assert(has_key(s[oi].1, k));
        let oj = crate::name_map::index_of(s[oi].1, k);
        assert(has_key(s, s[oi].1[oj].0));
        lemma_same_keys(f, s, k);
    }
}

/// Noting a relation keeps the tribe's invariant.
pub proof fn lemma_with_relation_ordered(
    s: TribeView,
    name1: Seq<char>,
    name2: Seq<char>,
    strength: RelationStrength,
)
    requires
        tribe_ordered(s),
    ensures
        tribe_ordered(with_relation(s, name1, name2, strength)),
{
    lemma_with_person_ordered(s, name2);
    let a = if has_key(s, name2) {
        s
    } else {
        with_person(s, name2)
    };
    let noted = relations_from(a, name1);
    lemma_relations_from(a, name1);
    let updated = if related(a, name1, name2) {
        noted
    } else {
        put(noted, name2, strength)
    };
    lemma_put(noted, name2, strength);
    assert forall|j: int| 0 <= j < updated.len() implies has_key(a, #[trigger] updated[j].0)
        || updated[j].0 == name1 by {
        let k = updated[j].0;
        lemma_index_of(updated, j);
        if k != name2 {
            assert(has_key(noted, k));
            let oj = crate::name_map::index_of(noted, k);
            assert(has_key(a, noted[oj].0));
        }
    }
    lemma_put_relations_ordered(a, name1, updated);
}

/// Taking a relation out keeps the tribe's invariant.
pub proof fn lemma_without_relation_ordered(s: TribeView, name1: Seq<char>, name2: Seq<char>)
    requires
        tribe_ordered(s),
    ensures
        tribe_ordered(without_relation(s, name1, name2)),
{
    if has_key(s, name1) {
        let noted = relations_from(s, name1);
        lemma_relations_from(s, name1);
        let updated = without(noted, name2);
        lemma_without(noted, name2);
        assert forall|j: int| 0 <= j < updated.len() implies has_key(s, #[trigger] updated[j].0)
            || updated[j].0 == name1 by {
            let k = updated[j].0;
            lemma_index_of(updated, j);
            assert(has_key(noted, k));
            let oj = crate::name_map::index_of(noted, k);
            assert(has_key(s, noted[oj].0));
        }
        lemma_put_relations_ordered(s, name1, updated);
    }
}

/// What is noted under a name after relations are put under a name.
pub proof fn lemma_put_notes(s: TribeView, name: Seq<char>, noted: Relations)
    requires
        ascending(s),
    ensures
        relations_from(put(s, name, noted), name) == noted,
        forall|other: Seq<char>|
            other != name ==> #[trigger] relations_from(put(s, name, noted), other)
                == relations_from(s, other),
{
    lemma_put(s, name, noted);
    assert forall|other: Seq<char>| other != name implies #[trigger] relations_from(
        put(s, name, noted),
        other,
    ) == relations_from(s, other) by {
        assert(lookup(put(s, name, noted), other) == lookup(s, other));
    }
}

/// Putting relations under a name leaves every pair with one relation at
/// most, where none of them has its reverse noted.
pub proof fn lemma_put_one_way(s: TribeView, name: Seq<char>, noted: Relations)
    requires
        ascending(s),
        one_way(s),
        forall|other: Seq<char>|
            other != name && has_key(noted, other) ==> !#[trigger] notes(s, other, name),
    ensures
        one_way(put(s, name, noted)),
{
    let p = put(s, name, noted);
    lemma_put_notes(s, name, noted);
    assert forall|name1: Seq<char>, name2: Seq<char>|
        name1 != name2 && #[trigger] notes(p, name1, name2) implies !notes(p, name2, name1) by {
        if name1 == name {
            assert(relations_from(p, name2) == relations_from(s, name2));
            assert(!notes(s, name2, name));
        } else if name2 == name {
            assert(relations_from(p, name1) == relations_from(s, name1));
            assert(notes(s, name1, name));
        } else {
            assert(relations_from(p, name1) == relations_from(s, name1));
            assert(relations_from(p, name2) == relations_from(s, name2));
            assert(notes(s, name1, name2));
        }
    }
}

/// Adding a person keeps the tribe's invariant.
pub proof fn lemma_with_person_wf(s: TribeView, name: Seq<char>)
    requires
        tribe_wf(s),
    ensures
        tribe_wf(with_person(s, name)),
        has_key(with_person(s, name), name),
        forall|other: Seq<char>| has_key(s, other) ==> has_key(with_person(s, name), other),
{
    lemma_with_person_ordered(s, name);
    lemma_put_one_way(s, name, Seq::<(Seq<char>, RelationStrength)>::empty());
}

/// Noting a relation keeps the tribe's invariant.
pub proof fn lemma_with_relation_wf(
    s: TribeView,
    name1: Seq<char>,
    name2: Seq<char>,
    strength: RelationStrength,
)
    requires
        tribe_wf(s),
    ensures
        tribe_wf(with_relation(s, name1, name2, strength)),
{
    lemma_with_relation_ordered(s, name1, name2, strength);
    lemma_with_person_wf(s, name2);
    let a = if has_key(s, name2) {
        s
    } else {
        with_person(s, name2)
    };
    let noted = relations_from(a, name1);
    lemma_relations_from(a, name1);
    let updated = if related(a, name1, name2) {
        noted
    } else {
        put(noted, name2, strength)
    };
    lemma_put(noted, name2, strength);
    assert forall|other: Seq<char>| other != name1 && has_key(updated, other) implies !#[trigger] notes(
        a,
        other,
        name1,
    ) by {
        if has_key(noted, other) {
            assert(notes(a, name1, other));
        } else {
            assert(other == name2);
        }
    }
    lemma_put_one_way(a, name1, updated);
}

/// Taking a relation out keeps the tribe's invariant.
pub proof fn lemma_without_relation_wf(s: TribeView, name1: Seq<char>, name2: Seq<char>)
    requires
        tribe_wf(s),
    ensures
        tribe_wf(without_relation(s, name1, name2)),
{
    lemma_without_relation_ordered(s, name1, name2);
    if has_key(s, name1) {
        let noted = relations_from(s, name1);
        lemma_relations_from(s, name1);
        let updated = without(noted, name2);
        lemma_without(noted, name2);
        assert forall|other: Seq<char>| other != name1 && has_key(updated, other) implies !#[trigger] notes(
            s,
            other,
            name1,
        ) by {
            assert(has_key(noted, other));
            assert(notes(s, name1, other));
        }
        lemma_put_one_way(s, name1, updated);
    }
}

/// What is noted after a person is taken out was noted before.
pub proof fn lemma_without_person_notes(
    s: TribeView,
    name: Seq<char>,
    name1: Seq<char>,
    name2: Seq<char>,
)
    requires
        tribe_ordered(s),
        notes(without_person(s, name), name1, name2),
    ensures
        notes(s, name1, name2),
{
    let f = forget(s, name);
    let w = without(f, name);
    lemma_without_person_ordered(s, name);
    lemma_without(f, name);
    lemma_same_keys(f, s, name1);
    assert(has_key(w, name1));
    assert(name1 != name);
    assert(has_key(f, name1));
    let i = crate::name_map::index_of(f, name1);
    lemma_index_of(f, i);
    assert(s[i].0 == name1);
    lemma_index_of(s, i);
    assert(relations_from(w, name1) == without(s[i].1, name));
    assert(ascending(s[i].1));
    lemma_without(s[i].1, name);
}

/// Taking a person out keeps the tribe's invariant.
pub proof fn lemma_without_person_wf(s: TribeView, name: Seq<char>)
    requires
        tribe_wf(s),
    ensures
        ascending(forget(s, name)),
        tribe_wf(without_person(s, name)),
{
    lemma_without_person_ordered(s, name);
    let w = without_person(s, name);
    assert forall|name1: Seq<char>, name2: Seq<char>|
        name1 != name2 && #[trigger] notes(w, name1, name2) implies !notes(w, name2, name1) by {
        lemma_without_person_notes(s, name, name1, name2);
        if notes(w, name2, name1) {
            lemma_without_person_notes(s, name, name2, name1);
        }
    }
}

/// Where a relation between two persons of the tribe is noted already, in
/// either direction, noting another one changes nothing.
pub proof fn lemma_with_relation_again(
    s: TribeView,
    name1: Seq<char>,
    name2: Seq<char>,
    strength: RelationStrength,
)
    requires
        tribe_wf(s),
        related(s, name1, name2),
    ensures
        with_relation(s, name1, name2, strength) == s,
{
    // Both are persons of the tribe, as one of them has the other noted.
    if notes(s, name1, name2) {
        let i = crate::name_map::index_of(s, name1);
        lemma_index_of(s, i);
        let m = crate::name_map::index_of(s[i].1, name2);
        assert(has_key(s, s[i].1[m].0));
    } else {
        let i = crate::name_map::index_of(s, name2);
        lemma_index_of(s, i);
        let m = crate::name_map::index_of(s[i].1, name1);
        assert(has_key(s, s[i].1[m].0));
    }
    assert(has_key(s, name1) && has_key(s, name2));
    lemma_rank_parts(s, name1);
    lemma_index_of(s, rank(s, name1));
    assert(with_relation(s, name1, name2, strength) =~= s);
}

/// The relation at place `m` under the person at place `i`.
pub open spec fn relation_at(s: TribeView, i: int, m: int) -> (
    Seq<char>,
    Seq<char>,
    RelationStrength,
) {
    (s[i].0, s[i].1[m].0, s[i].1[m].1)
}

/// The relation is noted under one of the first `n` persons.
pub open spec fn noted_upto(
    s: TribeView,
    n: int,
    r: (Seq<char>, Seq<char>, RelationStrength),
) -> bool {
    exists|i: int, m: int|
        0 <= i < n && 0 <= m < s[i].1.len() && #[trigger] relation_at(s, i, m) == r
}

/// The two relations stand between the same two persons.
pub open spec fn same_pair(
    r1: (Seq<char>, Seq<char>, RelationStrength),
    r2: (Seq<char>, Seq<char>, RelationStrength),
) -> bool {
    (r1.0 == r2.0 && r1.1 == r2.1) || (r1.0 == r2.1 && r1.1 == r2.0)
}

/// A relation that is noted under a person is noted from that person to
/// the other, with its strength.
pub proof fn lemma_relation_at(s: TribeView, i: int, m: int)
    requires
        tribe_ordered(s),
        0 <= i < s.len(),
        0 <= m < s[i].1.len(),
    ensures
        relations_from(s, s[i].0) == s[i].1,
        notes(s, s[i].0, s[i].1[m].0),
        lookup(s[i].1, s[i].1[m].0) == Some(s[i].1[m].1),
{
    lemma_index_of(s, i);
    assert(ascending(s[i].1));
    lemma_index_of(s[i].1, m);
}

/// The relations of the first `n` persons are those noted under them.
pub proof fn lemma_relations_listed(s: TribeView, n: int)
    requires
        0 <= n <= s.len(),
    ensures
        forall|r: (Seq<char>, Seq<char>, RelationStrength)|
            #[trigger] relations_of(s.take(n)).contains(r) <==> noted_upto(s, n, r),
    decreases n,
{
    let all = relations_of(s.take(n));
    if n == 0 {
        assert forall|r: (Seq<char>, Seq<char>, RelationStrength)| #[trigger]
            all.contains(r) <==> noted_upto(s, n, r) by {}
    } else {
        lemma_relations_listed(s, n - 1);
        assert(s.take(n).drop_last() =~= s.take(n - 1));
        let done = relations_of(s.take(n - 1));
        let under = relations_under(s[n - 1].0, s[n - 1].1);
        assert(all == done + under);
        assert forall|r: (Seq<char>, Seq<char>, RelationStrength)| #[trigger]
            all.contains(r) <==> noted_upto(s, n, r) by {
            if all.contains(r) {
                let j = choose|j: int| 0 <= j < all.len() && all[j] == r;
                if j < done.len() {
                    assert(done[j] == r);
                    assert(done.contains(r));
                    assert(noted_upto(s, n - 1, r));
                    let (i, m) = choose|i: int, m: int|
                        0 <= i < n - 1 && 0 <= m < s[i].1.len() && #[trigger] relation_at(s, i, m)
                            == r;
                    assert(relation_at(s, i, m) == r);
                } else {
                    let m = j - done.len();
                    assert(under[m] == r);
                    assert(relation_at(s, n - 1, m) == r);
                }
            }
            if noted_upto(s, n, r) {
                let (i, m) = choose|i: int, m: int|
                    0 <= i < n && 0 <= m < s[i].1.len() && #[trigger] relation_at(s, i, m) == r;
                if i < n - 1 {
                    assert(relation_at(s, i, m) == r);
                    assert(noted_upto(s, n - 1, r));
                    assert(done.contains(r));
                    let j = choose|j: int| 0 <= j < done.len() && done[j] == r;
                    assert(all[j] == r);
                } else {
                    assert(under[m] == r);
                    assert(all[done.len() + m] == r);
                }
            }
        }
    }
}

/// No two of the relations of the first `n` persons stand between the same
/// two persons.
pub proof fn lemma_relations_one_per_pair(s: TribeView, n: int)
    requires
        tribe_wf(s),
        0 <= n <= s.len(),
    ensures
        forall|j1: int, j2: int|
            0 <= j1 < j2 < relations_of(s.take(n)).len() ==> !same_pair(
                #[trigger] relations_of(s.take(n))[j1],
                #[trigger] relations_of(s.take(n))[j2],
            ),
    decreases n,
{
    if n > 0 {
        lemma_relations_one_per_pair(s, n - 1);
        lemma_relations_listed(s, n - 1);
        assert(s.take(n).drop_last() =~= s.take(n - 1));
        let all = relations_of(s.take(n));
        let done = relations_of(s.take(n - 1));
        let row = s[n - 1].1;
        let under = relations_under(s[n - 1].0, row);
        assert(all == done + under);
        assert forall|j1: int, j2: int| 0 <= j1 < j2 < all.len() implies !same_pair(
            #[trigger] all[j1],
            #[trigger] all[j2],
        ) by {
            if j2 < done.len() {
                assert(!same_pair(done[j1], done[j2]));
            } else if j1 < done.len() {
                let m2 = j2 - done.len();
                assert(all[j2] == relation_at(s, n - 1, m2));
                assert(done.contains(done[j1]));
                assert(noted_upto(s, n - 1, done[j1]));
                let (i, m) = choose|i: int, m: int|
                    0 <= i < n - 1 && 0 <= m < s[i].1.len() && #[trigger] relation_at(s, i, m)
                        == done[j1];
                lemma_relation_at(s, i, m);
                lemma_relation_at(s, n - 1, m2);
                lemma_index_of(s, i);
                lemma_index_of(s, n - 1);
                if same_pair(all[j1], all[j2]) {
                    if all[j1].0 == all[j2].0 {
                        assert(false);
                    } else {
                        assert(all[j1].0 != all[j1].1);
                        assert(notes(s, all[j1].0, all[j1].1));
                        assert(notes(s, all[j1].1, all[j1].0));
                    }
                }
            } else {
                let m1 = j1 - done.len();
                let m2 = j2 - done.len();
                assert(all[j1] == relation_at(s, n - 1, m1));
                assert(all[j2] == relation_at(s, n - 1, m2));
                assert(ascending(row));
                assert(crate::names::name_lt(row[m1].0, row[m2].0));
                crate::names::lemma_name_lt_irreflexive(row[m1].0);
            }
        }
    }
}

/// A kind of table.
#[derive(Clone, Copy, Debug, PartialEq, Eq, Hash)]
pub struct TableType {
    pub n_seats: u32,
}

/// The tables by name.
pub type Tables = NameMap<TableType>;

/// The persons seated at each table, by the table's name.
pub type Assignment = NameMap<Vec<String>>;

} // verus!
