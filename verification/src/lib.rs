//! Search for periodic integer sequences in which every element is the
//! distance from the element before it back to that element's previous
//! occurrence.
//!
//! [`recurrence`] says what such a cycle is and checks a sequence against
//! it. [`bits`] and [`domain`] hold, for each position of a period, the set
//! of values that may still stand there; [`rules`] narrows those sets by
//! what holds of every cycle, and [`propagation`] applies the rules until
//! they have nothing left to do. [`search`] fixes position after position,
//! backs out of every dead end, and lists the cycles of a period, each read
//! from its largest element on. [`progress`] keeps track of the periods that
//! a sweep has completed, and [`render`] writes a domain out for reading.

pub mod bits;
pub mod recurrence;
pub mod domain;
pub mod rules;
pub mod propagation;
pub mod search;
pub mod progress;
pub mod render;
