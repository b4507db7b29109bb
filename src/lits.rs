//! Literals handed to the SAT solver.

use vstd::prelude::*;
use crate::terms::Term;

verus! {

/// A signed atom. A pure Boolean literal stands for a connective, which
/// the SAT solver handles alone; a theory literal stands for an equality,
/// an if-then-else or an opaque predicate, whose truth the theory tracks.
#[derive(Clone, Copy, Debug, PartialEq, Eq, Structural, Hash)]
pub struct Lit {
    pub atom: Term,
    pub sign: bool,
    pub pure_bool: bool,
}

impl Lit {
    /// The pure Boolean literal of `t` with polarity `sign`.
    pub fn new_b(t: Term, sign: bool) -> (r: Lit)
        ensures
            r == (Lit { atom: t, sign, pure_bool: true }),
    {
        Lit { atom: t, sign, pure_bool: true }
    }

    /// The theory literal of `t` with polarity `sign`.
    pub fn new_t(t: Term, sign: bool) -> (r: Lit)
        ensures
            r == (Lit { atom: t, sign, pure_bool: false }),
    {
        Lit { atom: t, sign, pure_bool: false }
    }

    pub open spec fn negate(self) -> Lit {
        Lit { atom: self.atom, sign: !self.sign, pure_bool: self.pure_bool }
    }

    /// The opposite literal.
    pub fn neg(&self) -> (r: Lit)
        ensures
            r == self.negate(),
    {
        Lit { atom: self.atom, sign: !self.sign, pure_bool: self.pure_bool }
    }

    pub fn is_pure_bool(&self) -> (r: bool)
        ensures
            r == self.pure_bool,
    {
        self.pure_bool
    }
}

} // verus!
