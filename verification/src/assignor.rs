//! The seat arena: tables, seats and persons by dense index.
//!
//! Every table owns a contiguous range of seats. The seats of a table fill
//! from the left without gaps, so the persons of a table are the prefix of
//! its range up to the first free seat.

use vstd::prelude::*;

verus! {

/// The value that marks a free seat, and a person without a table.
pub const UNASSIGNED: u32 = u32::MAX;

/// Sum of the first `n` sizes.
pub open spec fn prefix_sum(sizes: Seq<u32>, n: int) -> int
    decreases n,
{
    if n <= 0 {
        0
    } else {
        prefix_sum(sizes, n - 1) + sizes[n - 1]
    }
}

/// Sum of all the sizes.
pub open spec fn total(sizes: Seq<u32>) -> int {
    prefix_sum(sizes, sizes.len() as int)
}

/// A prefix sums to no more than a longer prefix.
pub proof fn lemma_prefix_sum_monotonic(sizes: Seq<u32>, i: int, j: int)
    requires
        0 <= i <= j <= sizes.len(),
    ensures
        0 <= prefix_sum(sizes, i) <= prefix_sum(sizes, j),
    decreases j,
{
    if j > 0 {
        if i < j {
            lemma_prefix_sum_monotonic(sizes, i, j - 1);
        } else {
            lemma_prefix_sum_monotonic(sizes, i - 1, j - 1);
        }
    }
}

/// The seats of one table are taken up to `k` and free from `k` on.
pub open spec fn filled_to(seats: Seq<u32>, k: int) -> bool {
    &&& 0 <= k <= seats.len()
    &&& forall|i: int| 0 <= i < k ==> seats[i] != UNASSIGNED
    &&& forall|i: int| k <= i < seats.len() ==> seats[i] == UNASSIGNED
}

/// The number of taken seats of a table whose seats fill from the left.
pub open spec fn occupancy(seats: Seq<u32>) -> int {
    choose|k: int| filled_to(seats, k)
}

/// A table's seats are filled to one boundary only.
pub proof fn lemma_filled_to_unique(seats: Seq<u32>, k1: int, k2: int)
    requires
        filled_to(seats, k1),
        filled_to(seats, k2),
    ensures
        k1 == k2,
{
    if k1 < k2 {
        assert(seats[k1] == UNASSIGNED);
    } else if k2 < k1 {
        assert(seats[k2] == UNASSIGNED);
    }
}

/// The occupancy of a table that is filled to `k` is `k`.
pub proof fn lemma_occupancy(seats: Seq<u32>, k: int)
    requires
        filled_to(seats, k),
    ensures
        occupancy(seats) == k,
{
    lemma_filled_to_unique(seats, k, occupancy(seats));
}

/// What an arena holds: the seats of each table, the persons seated at each
/// table in the order of their seats, and the number of persons.
pub struct Seating {
    pub capacities: Seq<u32>,
    pub tables: Seq<Seq<u32>>,
    pub n_persons: nat,
}

impl Seating {
    /// No table holds more persons than it has seats, every seated person
    /// is known, and nobody sits twice.
    pub open spec fn valid(self) -> bool {
        &&& self.tables.len() == self.capacities.len()
        &&& forall|t: int|
            0 <= t < self.tables.len() ==> (#[trigger] self.tables[t]).len()
                <= self.capacities[t]
        &&& forall|t: int, i: int|
            0 <= t < self.tables.len() && 0 <= i < self.tables[t].len() ==> (
            #[trigger] self.tables[t][i]) < self.n_persons
        &&& forall|t1: int, i1: int, t2: int, i2: int|
            0 <= t1 < self.tables.len() && 0 <= i1 < self.tables[t1].len() && 0 <= t2
                < self.tables.len() && 0 <= i2 < self.tables[t2].len()
                && #[trigger] self.tables[t1][i1] == #[trigger] self.tables[t2][i2] ==> t1 == t2
                && i1 == i2
    }

    /// With nobody seated.
    pub open spec fn empty(capacities: Seq<u32>, n_persons: nat) -> Seating {
        Seating {
            capacities,
            tables: Seq::new(capacities.len(), |t: int| Seq::<u32>::empty()),
            n_persons,
        }
    }

    /// The person sits at the table.
    pub open spec fn sits_at(self, person: u32, table: int) -> bool {
        0 <= table < self.tables.len() && self.tables[table].contains(person)
    }

    /// The person sits at some table.
    pub open spec fn seated(self, person: u32) -> bool {
        exists|t: int| self.sits_at(person, t)
    }

    /// The table has no free seat.
    pub open spec fn full(self, table: int) -> bool {
        self.tables[table].len() >= self.capacities[table]
    }

    /// The person takes the next free seat of the table.
    pub open spec fn seat(self, person: u32, table: int) -> Seating {
        Seating { tables: self.tables.update(table, self.tables[table].push(person)), ..self }
    }

    /// The person can take a seat at the table.
    pub open spec fn can_seat(self, person: u32, table: int) -> bool {
        !self.seated(person) && !self.full(table)
    }

    /// The number of seated persons.
    pub open spec fn seated_count(self) -> int {
        occupied_upto(self.tables, self.tables.len() as int)
    }
}

/// The number of persons at the first `n` tables.
pub open spec fn occupied_upto(tables: Seq<Seq<u32>>, n: int) -> int
    decreases n,
{
    if n <= 0 {
        0
    } else {
        occupied_upto(tables, n - 1) + tables[n - 1].len()
    }
}

/// Seats, tables and persons by dense index.
#[derive(Debug)]
pub struct Assignor {
    table_ptrs: Vec<u32>,
    seat_assignment: Vec<u32>,
    person_assignment: Vec<u32>,
}

impl View for Assignor {
    type V = Seating;

    closed spec fn view(&self) -> Seating {
        Seating {
            capacities: Seq::new(
                (self.table_ptrs.len() - 1) as nat,
                |t: int| (self.table_ptrs[t + 1] - self.table_ptrs[t]) as u32,
            ),
            tables: Seq::new(
                (self.table_ptrs.len() - 1) as nat,
                |t: int| self.seats_of(t).take(occupancy(self.seats_of(t))),
            ),
            n_persons: self.person_assignment.len() as nat,
        }
    }
}

impl Assignor {
    /// The seats of a table, free ones included.
    spec fn seats_of(&self, t: int) -> Seq<u32> {
        self.seat_assignment@.subrange(self.table_ptrs[t] as int, self.table_ptrs[t + 1] as int)
    }

    /// The table whose range holds the seat.
    spec fn owns(&self, t: int, s: int) -> bool {
        0 <= t < self.table_ptrs.len() - 1 && self.table_ptrs[t] <= s < self.table_ptrs[t + 1]
    }

    /// The arena's invariant.
    pub closed spec fn wf(&self) -> bool {
        &&& 1 <= self.table_ptrs.len() <= u32::MAX as nat + 1
        &&& self.person_assignment.len() <= u32::MAX
        &&& self.table_ptrs[0] == 0
        &&& self.table_ptrs[self.table_ptrs.len() - 1] == self.seat_assignment.len()
        &&& forall|i: int, j: int|
            0 <= i <= j < self.table_ptrs.len() ==> self.table_ptrs[i] <= self.table_ptrs[j]
        &&& forall|t: int|
            0 <= t < self.table_ptrs.len() - 1 ==> filled_to(
                #[trigger] self.seats_of(t),
                occupancy(self.seats_of(t)),
            )
        &&& forall|s: int|
            0 <= s < self.seat_assignment.len() && #[trigger] self.seat_assignment[s]
                != UNASSIGNED ==> self.seat_assignment[s] < self.person_assignment.len()
                && self.owns(self.person_assignment[self.seat_assignment[s] as int] as int, s)
        &&& forall|s1: int, s2: int|
            0 <= s1 < self.seat_assignment.len() && 0 <= s2 < self.seat_assignment.len()
                && #[trigger] self.seat_assignment[s1] == #[trigger] self.seat_assignment[s2]
                && self.seat_assignment[s1] != UNASSIGNED ==> s1 == s2
        &&& forall|p: int|
            0 <= p < self.person_assignment.len() && #[trigger] self.person_assignment[p]
                != UNASSIGNED ==> exists|s: int|
                0 <= s < self.seat_assignment.len() && #[trigger] self.seat_assignment[s] == p
    }

    /// A well-formed arena holds a valid seating.
    pub proof fn lemma_valid(&self)
        requires
            self.wf(),
        ensures
            self@.valid(),
            self@.capacities.len() <= u32::MAX,
            self@.n_persons <= u32::MAX,
            total(self@.capacities) <= u32::MAX,
    {
        let v = self@;
        assert forall|t: int| 0 <= t < v.tables.len() implies (#[trigger] v.tables[t]).len()
            <= v.capacities[t] by {
            assert(filled_to(self.seats_of(t), occupancy(self.seats_of(t))));
        }
        assert forall|t: int, i: int|
            0 <= t < v.tables.len() && 0 <= i < v.tables[t].len() implies (
        #[trigger] v.tables[t][i]) < v.n_persons by {
            assert(filled_to(self.seats_of(t), occupancy(self.seats_of(t))));
            assert(self.seats_of(t)[i] != UNASSIGNED);
            assert(v.tables[t][i] == self.seat_assignment[self.table_ptrs[t] + i]);
        }
        assert forall|t1: int, i1: int, t2: int, i2: int|
            0 <= t1 < v.tables.len() && 0 <= i1 < v.tables[t1].len() && 0 <= t2 < v.tables.len()
                && 0 <= i2 < v.tables[t2].len() && #[trigger] v.tables[t1][i1]
                == #[trigger] v.tables[t2][i2] implies t1 == t2 && i1 == i2 by {
            assert(filled_to(self.seats_of(t1), occupancy(self.seats_of(t1))));
            assert(filled_to(self.seats_of(t2), occupancy(self.seats_of(t2))));
            assert(self.seats_of(t1)[i1] != UNASSIGNED);
            let s1 = self.table_ptrs[t1] + i1;
            let s2 = self.table_ptrs[t2] + i2;
            assert(v.tables[t1][i1] == self.seat_assignment[s1]);
            assert(v.tables[t2][i2] == self.seat_assignment[s2]);
            assert(s1 == s2);
            if t1 < t2 {
                assert(self.table_ptrs[t1 + 1] <= self.table_ptrs[t2]);
            } else if t2 < t1 {
                assert(self.table_ptrs[t2 + 1] <= self.table_ptrs[t1]);
            }
        }
        self.lemma_ptrs_are_sums(v.capacities.len() as int);
    }

    /// A person sits at the table that the arena has noted for them, and
    /// at no other.
    proof fn lemma_sits_at(&self, person: u32, t: int)
        requires
            self.wf(),
            person < self@.n_persons,
        ensures
            self@.sits_at(person, t) <==> (0 <= t < self@.tables.len()
                && self.person_assignment[person as int] == t),
            self@.seated(person) <==> self.person_assignment[person as int] != UNASSIGNED,
    {
        let v = self@;
        let noted = self.person_assignment[person as int];
        assert forall|u: int| v.sits_at(person, u) implies noted == u by {
            let i = choose|i: int| 0 <= i < v.tables[u].len() && v.tables[u][i] == person;
            assert(filled_to(self.seats_of(u), occupancy(self.seats_of(u))));
            let s = self.table_ptrs[u] + i;
            assert(self.seats_of(u)[i] == self.seat_assignment[s]);
            assert(self.table_ptrs[u] <= self.table_ptrs[u + 1]);
            assert(self.table_ptrs[u + 1] <= self.table_ptrs[self.table_ptrs.len() - 1]);
            assert(self.seat_assignment[s] == person);
            assert(self.owns(noted as int, s));
            if noted < u {
                assert(self.table_ptrs[noted + 1] <= self.table_ptrs[u]);
            } else if u < noted {
                assert(self.table_ptrs[u + 1] <= self.table_ptrs[noted as int]);
            }
        }
        if noted != UNASSIGNED {
            let s = choose|s: int|
                0 <= s < self.seat_assignment.len() && #[trigger] self.seat_assignment[s]
                    == person;
            assert(self.owns(noted as int, s));
            let u = noted as int;
            let i = s - self.table_ptrs[u];
            assert(filled_to(self.seats_of(u), occupancy(self.seats_of(u))));
            assert(self.seats_of(u)[i] == person);
            assert(i < occupancy(self.seats_of(u)));
            assert(v.tables[u][i] == person);
            assert(v.sits_at(person, u));
        }
    }

    /// The start of a table's range is the sum of the sizes before it.
    proof fn lemma_ptrs_are_sums(&self, t: int)
        requires
            self.wf(),
            0 <= t < self.table_ptrs.len(),
        ensures
            prefix_sum(self@.capacities, t) == self.table_ptrs[t],
        decreases t,
    {
        if t > 0 {
            self.lemma_ptrs_are_sums(t - 1);
            assert(self.table_ptrs[t - 1] <= self.table_ptrs[t]);
        }
    }
}

impl Assignor {
    /// An arena with one range of seats for each size, in the order given,
    /// and nobody seated.
    pub fn from_table_sizes(table_sizes: Vec<u32>, n_persons: u32) -> (r: Self)
        requires
            table_sizes.len() <= u32::MAX,
            total(table_sizes@) <= u32::MAX,
        ensures
            r.wf(),
            r@ == Seating::empty(table_sizes@, n_persons as nat),
    {
        let n: usize = table_sizes.len();
        let mut table_ptrs: Vec<u32> = Vec::new();
        table_ptrs.push(0);
        let mut acc: u32 = 0;
        let mut i: usize = 0;
        while i < n
            invariant
                n == table_sizes.len(),
                total(table_sizes@) <= u32::MAX,
                0 <= i <= n,
                table_ptrs.len() == i + 1,
                acc == prefix_sum(table_sizes@, i as int),
                forall|j: int| 0 <= j <= i ==> table_ptrs[j] == prefix_sum(table_sizes@, j),
            decreases n - i,
        {
            proof {
                lemma_prefix_sum_monotonic(table_sizes@, i + 1, n as int);
            }
            acc = acc + table_sizes[i];
            table_ptrs.push(acc);
            i = i + 1;
        }
        let seat_assignment: Vec<u32> = vec![UNASSIGNED; acc as usize];
        let person_assignment: Vec<u32> = vec![UNASSIGNED; n_persons as usize];
        let r = Assignor { table_ptrs, seat_assignment, person_assignment };
        proof {
            assert forall|a: int, b: int| 0 <= a <= b < r.table_ptrs.len() implies r.table_ptrs[a]
                <= r.table_ptrs[b] by {
                lemma_prefix_sum_monotonic(table_sizes@, a, b);
            }
            assert forall|t: int| 0 <= t < r.table_ptrs.len() - 1 implies filled_to(
                #[trigger] r.seats_of(t),
                occupancy(r.seats_of(t)),
            ) by {
                assert(r.table_ptrs[t] <= r.table_ptrs[t + 1]);
                assert(r.table_ptrs[t + 1] <= r.table_ptrs[n as int]);
                assert(filled_to(r.seats_of(t), 0));
                lemma_occupancy(r.seats_of(t), 0);
            }
            assert(r.wf());
            assert(r@.capacities =~= table_sizes@);
            assert forall|t: int| 0 <= t < n implies #[trigger] r@.tables[t] == Seq::<u32>::empty() by {
                assert(filled_to(r.seats_of(t), occupancy(r.seats_of(t))));
                assert(r.table_ptrs[t] <= r.table_ptrs[t + 1]);
                assert(r.table_ptrs[t + 1] <= r.table_ptrs[n as int]);
                assert(filled_to(r.seats_of(t), 0));
                lemma_occupancy(r.seats_of(t), 0);
                assert(r@.tables[t] =~= Seq::<u32>::empty());
            }
            assert(r@.tables =~= Seating::empty(table_sizes@, n_persons as nat).tables);
        }
        r
    }

    /// The persons' indices, ascending.
    pub fn persons(&self) -> (r: core::ops::Range<u32>)
        requires
            self.wf(),
        ensures
            r.start == 0,
            r.end == self@.n_persons,
    {
        0..self.person_count()
    }

    /// The tables' indices, ascending.
    pub fn tables(&self) -> (r: core::ops::Range<u32>)
        requires
            self.wf(),
        ensures
            r.start == 0,
            r.end == self@.tables.len(),
    {
        0..self.table_count()
    }

    /// The number of seats of all tables together.
    pub fn seat_count(&self) -> (r: u32)
        requires
            self.wf(),
        ensures
            r == total(self@.capacities),
    {
        proof {
            self.lemma_ptrs_are_sums(self.table_ptrs.len() - 1);
        }
        self.table_ptrs[self.table_ptrs.len() - 1]
    }

    /// The number of persons, seated or not.
    pub fn person_count(&self) -> (r: u32)
        requires
            self.wf(),
        ensures
            r == self@.n_persons,
    {
        self.person_assignment.len() as u32
    }

    /// The number of tables.
    pub fn table_count(&self) -> (r: u32)
        requires
            self.wf(),
        ensures
            r == self@.tables.len(),
    {
        (self.table_ptrs.len() - 1) as u32
    }

    fn table_slice(&self, table: u32) -> (r: &[u32])
        requires
            self.wf(),
            table < self@.tables.len(),
        ensures
            r@ == self.seats_of(table as int),
            r@.len() == self@.capacities[table as int],
    {
        let idx: usize = table as usize;
        let table_start: usize = self.table_ptrs[idx] as usize;
        let table_end: usize = self.table_ptrs[idx + 1] as usize;
        proof {
            assert(self.table_ptrs[idx as int] <= self.table_ptrs[idx + 1]);
            assert(self.table_ptrs[idx + 1] <= self.table_ptrs[self.table_ptrs.len() - 1]);
        }
        let seats = self.seat_assignment.as_slice();
        &seats[table_start..table_end]
    }

    /// The offset of the table's first free seat, if it has one.
    pub fn table_free_seat_offset(&self, table: u32) -> (r: Option<u32>)
        requires
            self.wf(),
            table < self@.tables.len(),
        ensures
            r == if self@.full(table as int) {
                None
            } else {
                Some(self@.tables[table as int].len() as u32)
            },
    {
        let seats = self.table_slice(table);
        let n: usize = seats.len();
        proof {
            assert(filled_to(self.seats_of(table as int), occupancy(self.seats_of(table as int))));
        }
        let mut i: usize = 0;
        while i < n
            invariant
                n == seats@.len(),
                n <= u32::MAX,
                0 <= i <= n,
                table < self@.tables.len(),
                seats@ == self.seats_of(table as int),
                n == self@.capacities[table as int],
                filled_to(seats@, occupancy(seats@)),
                forall|j: int| 0 <= j < i ==> seats@[j] != UNASSIGNED,
            decreases n - i,
        {
            if seats[i] == UNASSIGNED {
                proof {
                    let k = occupancy(seats@);
                    if k < i {
                        assert(seats@[k] == UNASSIGNED);
                    }
                }
                return Some(i as u32);
            }
            i = i + 1;
        }
        proof {
            let k = occupancy(seats@);
            if k < n {
                assert(seats@[k] == UNASSIGNED);
            }
        }
        None
    }

    /// The number of persons at the table.
    pub fn table_person_count(&self, table: u32) -> (r: u32)
        requires
            self.wf(),
            table < self@.tables.len(),
        ensures
            r == self@.tables[table as int].len(),
    {
        proof {
            self.lemma_valid();
        }
        match self.table_free_seat_offset(table) {
            Some(k) => k,
            None => self.table_seat_count(table),
        }
    }

    /// The number of seats of the table.
    pub fn table_seat_count(&self, table: u32) -> (r: u32)
        requires
            self.wf(),
            table < self@.tables.len(),
        ensures
            r == self@.capacities[table as int],
    {
        self.table_slice(table).len() as u32
    }

    /// Whether the table has no free seat.
    pub fn table_is_full(&self, table: u32) -> (r: bool)
        requires
            self.wf(),
            table < self@.tables.len(),
        ensures
            r == self@.full(table as int),
    {
        let seats = self.table_slice(table);
        let n: usize = seats.len();
        proof {
            self.lemma_valid();
            assert(filled_to(self.seats_of(table as int), occupancy(self.seats_of(table as int))));
        }
        if n == 0 {
            true
        } else {
            seats[n - 1] != UNASSIGNED
        }
    }

    /// The persons at the table, in the order of their seats.
    pub fn table_persons(&self, table: u32) -> (r: &[u32])
        requires
            self.wf(),
            table < self@.tables.len(),
        ensures
            r@ == self@.tables[table as int],
    {
        let seats = self.table_slice(table);
        let k: usize = self.table_person_count(table) as usize;
        proof {
            self.lemma_valid();
        }
        &seats[0..k]
    }

    /// Every table's index with the persons at it, by ascending index.
    pub fn table_assignment(&self) -> (r: Vec<(u32, &[u32])>)
        requires
            self.wf(),
        ensures
            r.len() == self@.tables.len(),
            forall|t: int|
                0 <= t < r.len() ==> (#[trigger] r[t]).0 == t && r[t].1@ == self@.tables[t],
    {
        let n: u32 = self.table_count();
        let mut out: Vec<(u32, &[u32])> = Vec::new();
        let mut t: u32 = 0;
        while t < n
            invariant
                self.wf(),
                n == self@.tables.len(),
                0 <= t <= n,
                out.len() == t,
                forall|u: int|
                    0 <= u < out.len() ==> (#[trigger] out[u]).0 == u && out[u].1@
                        == self@.tables[u],
            decreases n - t,
        {
            out.push((t, self.table_persons(t)));
            t = t + 1;
        }
        out
    }

    /// Whether the person sits at some table.
    pub fn person_is_seated(&self, person: u32) -> (r: bool)
        requires
            self.wf(),
            person < self@.n_persons,
        ensures
            r == self@.seated(person),
    {
        proof {
            self.lemma_sits_at(person, 0);
        }
        self.person_assignment[person as usize] != UNASSIGNED
    }

    /// Whether `assign` would seat the person at the table.
    pub fn can_assign(&mut self, person: u32, table: u32) -> (r: bool)
        requires
            old(self).wf(),
            person < old(self)@.n_persons,
            table < old(self)@.tables.len(),
        ensures
            *final(self) == *old(self),
            r == old(self)@.can_seat(person, table as int),
    {
        !self.person_is_seated(person) && !self.table_is_full(table)
    }

    /// Seats the person at the table's first free seat. Does nothing, and
    /// says so, where the person is seated already or the table is full.
    pub fn assign(&mut self, person: u32, table: u32) -> (r: bool)
        requires
            old(self).wf(),
            person < old(self)@.n_persons,
            table < old(self)@.tables.len(),
        ensures
            final(self).wf(),
            r == old(self)@.can_seat(person, table as int),
            r ==> final(self)@ == old(self)@.seat(person, table as int),
            !r ==> *final(self) == *old(self),
    {
        if self.person_is_seated(person) {
            return false;
        }
        let free = self.table_free_seat_offset(table);
        match free {
            Some(k) => {
                let start: usize = self.table_ptrs[table as usize] as usize;
                proof {
                    self.lemma_valid();
                    self.lemma_sits_at(person, 0);
                    assert(self.table_ptrs[table as int] <= self.table_ptrs[table + 1]);
                    assert(self.table_ptrs[table + 1] <= self.table_ptrs[self.table_ptrs.len()
                        - 1]);
                }
                let idx: usize = start + k as usize;
                self.seat_assignment.set(idx, person);
                self.person_assignment.set(person as usize, table);
                proof {
                    Self::lemma_assign(*old(self), *self, person, table, k);
                }
                true
            },
            None => false,
        }
    }

    /// What writing one person into the first free seat of a table does.
    proof fn lemma_assign(pre: Assignor, post: Assignor, person: u32, table: u32, k: u32)
        requires
            pre.wf(),
            person < pre@.n_persons,
            table < pre@.tables.len(),
            !pre@.seated(person),
            !pre@.full(table as int),
            k == pre@.tables[table as int].len(),
            post.table_ptrs == pre.table_ptrs,
            post.seat_assignment@ == pre.seat_assignment@.update(
                pre.table_ptrs[table as int] + k,
                person,
            ),
            post.person_assignment@ == pre.person_assignment@.update(person as int, table),
        ensures
            post.wf(),
            post@ == pre@.seat(person, table as int),
    {
        let t = table as int;
        let idx = pre.table_ptrs[t] + k;
        pre.lemma_valid();
        pre.lemma_sits_at(person, 0);
        assert(filled_to(pre.seats_of(t), occupancy(pre.seats_of(t))));
        assert(pre.table_ptrs[t] <= pre.table_ptrs[t + 1]);
        assert(pre.table_ptrs[t + 1] <= pre.table_ptrs[pre.table_ptrs.len() - 1]);
        assert(pre.seats_of(t)[k as int] == UNASSIGNED);
        assert(pre.seat_assignment[idx] == UNASSIGNED);
        // Nobody holds the person yet.
        assert forall|s: int| 0 <= s < pre.seat_assignment.len() implies pre.seat_assignment[s]
            != person by {
            if pre.seat_assignment[s] == person {
                assert(pre.owns(pre.person_assignment[person as int] as int, s));
            }
        }
        assert forall|u: int| 0 <= u < post.table_ptrs.len() - 1 implies filled_to(
            #[trigger] post.seats_of(u),
            occupancy(post.seats_of(u)),
        ) && post@.tables[u] == pre@.seat(person, t).tables[u] by {
            assert(filled_to(pre.seats_of(u), occupancy(pre.seats_of(u))));
            assert(pre.table_ptrs[u] <= pre.table_ptrs[u + 1]);
            assert(pre.table_ptrs[u + 1] <= pre.table_ptrs[pre.table_ptrs.len() - 1]);
            if u == t {
                assert(post.seats_of(u) =~= pre.seats_of(u).update(k as int, person));
                assert(filled_to(post.seats_of(u), k + 1));
                lemma_occupancy(post.seats_of(u), k + 1);
                assert(post@.tables[u] =~= pre@.tables[u].push(person));
            } else {
                if u < t {
                    assert(pre.table_ptrs[u + 1] <= pre.table_ptrs[t]);
                } else {
                    assert(pre.table_ptrs[t + 1] <= pre.table_ptrs[u]);
                }
                assert(post.seats_of(u) =~= pre.seats_of(u));
            }
        }
        assert forall|s: int|
            0 <= s < post.seat_assignment.len() && #[trigger] post.seat_assignment[s]
                != UNASSIGNED implies post.seat_assignment[s] < post.person_assignment.len()
            && post.owns(post.person_assignment[post.seat_assignment[s] as int] as int, s) by {
            if s != idx {
                assert(pre.seat_assignment[s] != UNASSIGNED);
                assert(pre.owns(pre.person_assignment[pre.seat_assignment[s] as int] as int, s));
            }
        }
        assert forall|p: int|
            0 <= p < post.person_assignment.len() && #[trigger] post.person_assignment[p]
                != UNASSIGNED implies exists|s: int|
            0 <= s < post.seat_assignment.len() && #[trigger] post.seat_assignment[s] == p by {
            if p == person {
                assert(post.seat_assignment[idx] == p);
            } else {
                let s = choose|s: int|
                    0 <= s < pre.seat_assignment.len() && #[trigger] pre.seat_assignment[s] == p;
                assert(post.seat_assignment[s] == p);
            }
        }
        assert(post.wf());
        assert(post@.capacities =~= pre@.capacities);
        assert(post@.tables =~= pre@.seat(person, t).tables);
    }
}

impl Clone for Assignor {
    /// A copy that holds the same seating.
    fn clone(&self) -> (r: Self)
        ensures
            r@ == self@,
            self.wf() ==> r.wf(),
    {
        let r = Assignor {
            table_ptrs: self.table_ptrs.clone(),
            seat_assignment: self.seat_assignment.clone(),
            person_assignment: self.person_assignment.clone(),
        };
        proof {
            assert(r.table_ptrs@ =~= self.table_ptrs@);
            assert(r.seat_assignment@ =~= self.seat_assignment@);
            assert(r.person_assignment@ =~= self.person_assignment@);
            assert forall|t: int| r.seats_of(t) == self.seats_of(t) by {}
            assert(r@.capacities =~= self@.capacities);
            assert(r@.tables =~= self@.tables);
        }
        r
    }
}

} // verus!
