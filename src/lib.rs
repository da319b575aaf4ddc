pub mod segtree;
pub mod sieve;

pub use segtree::{open, Endpoint, Entry, Segtree};
pub use sieve::SieveUsize;
