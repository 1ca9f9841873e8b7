pub mod equivalence;
pub mod helpers;
