//! Names that nobody has yet: the numbers from one on, as text.

use crate::numerals::{decimal, push_numeral};
use vstd::prelude::*;

verus! {

/// Hands out the numbers from one on as names, each once.
pub struct NameGenerator {
    current: usize,
}

impl NameGenerator {
    /// The number of the name that comes next.
    pub closed spec fn upcoming(&self) -> nat {
        self.current as nat
    }

    /// A generator that starts with the name `1`.
    pub fn new() -> (r: Self)
        ensures
            r.upcoming() == 1,
    {
        NameGenerator { current: 1 }
    }

    /// The next name: the upcoming number in decimal digits. None once the
    /// numbers are used up.
    pub fn next(&mut self) -> (r: Option<String>)
        ensures
            match r {
                Some(name) => {
                    &&& old(self).upcoming() < usize::MAX
                    &&& name@ == decimal(old(self).upcoming())
                    &&& final(self).upcoming() == old(self).upcoming() + 1
                },
                None => old(self).upcoming() == usize::MAX && final(self).upcoming() == old(
                    self,
                ).upcoming(),
            },
    {
        if self.current == usize::MAX {
            return None;
        }
        let mut name = String::new();
        push_numeral(&mut name, self.current as u64, 10);
        self.current = self.current + 1;
        Some(name)
    }
}

} // verus!
