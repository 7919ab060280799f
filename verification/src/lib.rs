pub mod arith;
pub mod digits;
pub mod expand;
pub mod pack;
pub mod pal;
pub mod primes;
pub mod scanner;
