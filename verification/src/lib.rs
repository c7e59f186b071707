//! A small algorithm library: a suffix array built by induced sorting,
//! with the query surface on top of it, and a few independent utilities
//! (a combinatorics table, a prime sieve, a rolling hash, a counter,
//! and yes/no answer helpers).

pub mod atkin;
pub mod comb;
pub mod counter;
pub mod induced_sort;
pub mod output;
pub mod rolling_hash;
pub mod suffix_array;
pub mod suffix_order;
