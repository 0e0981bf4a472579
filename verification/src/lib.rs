//! Containers that count how often each of their keys occurs.
//!
//! Every container maps a key to a signed count and keeps the sum of all of
//! its counts at hand. A count of zero is never stored: a key whose count
//! reaches zero loses its record.

pub mod containers;
