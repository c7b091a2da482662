pub mod bits;
pub mod bloom;
pub mod counting_bloom;
pub mod hashing;
pub mod multiparty_sketch;
pub mod prime_field;
pub mod random;
pub mod rateless_bloom;
pub mod riblt;
