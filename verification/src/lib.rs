//! Seating of named persons at named tables of limited size.
//!
//! The solver places every person at exactly one table, never more persons
//! at a table than it has seats, and weighs the relations between persons
//! while it does so. It is a single pass: every person in turn joins the
//! open table that costs least, and stays there.
//!
//! - `model`: persons, relations and tables by name.
//! - `solver`: `solve`, and the steps it is made of.
//! - `assignor`, `costs`, `graph`: seats, costs and relations by dense index.
//! - `greedy`: the order of seating as mathematics, and `laws`: what holds
//!   of every seating that it gives.
//! - `names`, `name_map`: the order of names, and maps that keep it.
//! - `entry`, `html_id`, `name_generator`, `numerals`, `examples`: what a
//!   page around the solver needs.

pub mod assignor;
pub mod costs;
pub mod entry;
pub mod examples;
pub mod graph;
pub mod greedy;
pub mod html_id;
pub mod laws;
pub mod model;
pub mod name_generator;
pub mod name_map;
pub mod names;
pub mod numerals;
pub mod solver;
