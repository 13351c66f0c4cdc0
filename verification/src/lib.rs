//! A bounded square for broadcasting messages, which readers and writers can join and leave at any
//! time.
//!
//! A reader hears every message that is published from where it entered, in order. A message is
//! kept until no active reader can still get at it; readers that suspend themselves give up their
//! claim. Writers reserve slots of a ring buffer, fill them in place, and publish them in the order
//! of the reservations. Anyone can clean up old messages at any time.
//!
//! - [`area`] and [`handles`]: the area and the handles of those who take part in it.
//! - [`iter`]: filling reserved slots one by one.
//! - [`map`], [`place`] and [`storage`]: the map that the readers are registered in, the places that
//!   messages are put into, and the memory that all of this is kept in.
//! - [`arithmetics`] and [`bits`]: generation numbers, and facts about powers of two.
//! - [`steps`] and [`tasks`]: the decisions of the operations, and the operations as tasks that are
//!   carried out one access to shared memory at a time.
//! - [`model`] and [`laws`]: what an area is, and what holds of it whatever is done with it.
//! - [`effects`] and [`outcomes`]: what each operation changes and reports, and what a task may come
//!   to.
//! - [`history`] and [`accounts`]: what many calls come to, one after the other.
//! - [`protocol`], [`simulation`], [`tournament`] and [`ending`]: what holds when any number of
//!   participants act at once.

pub mod accounts;
pub mod area;
pub mod arithmetics;
pub mod bits;
pub mod effects;
pub mod ending;
pub mod handles;
pub mod history;
pub mod iter;
pub mod laws;
pub mod map;
pub mod model;
pub mod outcomes;
pub mod place;
pub mod protocol;
pub mod simulation;
pub mod steps;
pub mod storage;
pub mod tasks;
pub mod tournament;
