//! Ground reasoning on a hash-consed term DAG: simplification of Boolean
//! formulas and their Tseitin encoding into clauses, congruence closure
//! (a reference one recomputed at each check, and an incremental one with
//! backtracking), and a small document builder for pretty printing.

pub mod terms;
pub mod lits;
pub mod simp;
pub mod tseitin;
pub mod pretty;
pub mod naive_cc;
pub mod backtrack;
pub mod cc;
