pub mod agreement;
pub mod digest;
pub mod hashing;
pub mod inspect;
pub mod runner;
pub mod scheduler;
