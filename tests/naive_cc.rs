use batsmt_tseitin::lits::Lit;
use batsmt_tseitin::naive_cc::{Builtins, NaiveCC};
use batsmt_tseitin::terms::{Node, Term, Terms};

struct World {
    m: Terms,
    b: Builtins,
    u: Term,
}

impl World {
    fn new() -> World {
        let mut m = Terms::new();
        let true_term = m.mk(Node::Bool(true));
        let false_term = m.mk(Node::Bool(false));
        let u = m.mk(Node::Const(0, None));
        World { m, b: Builtins { true_term, false_term }, u }
    }

    fn cst(&mut self, sym: u32) -> Term {
        self.m.mk(Node::Const(sym, Some(self.u)))
    }

    fn app(&mut self, f: Term, args: Vec<Term>) -> Term {
        self.m.mk(Node::App(f, args, Some(self.u)))
    }

    fn eq(&mut self, a: Term, b: Term) -> Term {
        self.m.mk(Node::Eq(a, b))
    }
}

fn lit(atom: Term) -> Lit {
    Lit { atom, sign: true, pure_bool: false }
}

#[test]
fn congruence_after_merging_arguments() {
    let mut w = World::new();
    let f = w.cst(10);
    let a = w.cst(1);
    let b = w.cst(2);
    let fa = w.app(f, vec![a]);
    let fb = w.app(f, vec![b]);
    let l2 = lit(w.eq(a, b));
    let mut cc = NaiveCC::new(w.b);
    cc.merge(a, b, l2);
    let class = cc.closure(&w.m);
    assert_eq!(class[fa], class[fb]);
    assert_eq!(class[a], class[b]);
    assert_ne!(class[a], class[f]);
    assert!(cc.final_check(&w.m).is_ok());
}

#[test]
fn transitivity_conflict_has_the_three_literals() {
    let mut w = World::new();
    let a = w.cst(1);
    let b = w.cst(2);
    let c = w.cst(3);
    let ab = w.eq(a, b);
    let bc = w.eq(b, c);
    let ac = w.eq(a, c);
    let mut cc = NaiveCC::new(w.b);
    cc.assert_lit(&w.m, lit(ab));
    cc.assert_lit(&w.m, lit(bc));
    cc.assert_lit(&w.m, lit(ac).neg());
    let conflict = cc.final_check(&w.m).unwrap_err();
    assert_eq!(conflict, vec![lit(ab), lit(bc), lit(ac).neg()]);
}

#[test]
fn congruence_propagates_equality() {
    let mut w = World::new();
    let f = w.cst(10);
    let a = w.cst(1);
    let b = w.cst(2);
    let b2 = w.cst(3);
    let c = w.cst(4);
    let d = w.cst(5);
    let fab = w.app(f, vec![a, b]);
    let fab2 = w.app(f, vec![a, b2]);
    let e1 = w.eq(fab, c);
    let e2 = w.eq(fab2, d);
    let e3 = w.eq(b, b2);
    let cd = w.eq(c, d);
    let mut cc = NaiveCC::new(w.b);
    cc.add_literal(cd);
    assert_eq!(cc.final_check(&w.m).unwrap(), vec![]);
    cc.assert_lit(&w.m, lit(e1));
    cc.assert_lit(&w.m, lit(e2));
    assert_eq!(cc.final_check(&w.m).unwrap(), vec![]);
    cc.assert_lit(&w.m, lit(e3));
    assert_eq!(cc.final_check(&w.m).unwrap(), vec![lit(cd)]);
}

#[test]
fn pop_forgets_merges_of_the_level() {
    let mut w = World::new();
    let a = w.cst(1);
    let b = w.cst(2);
    let c = w.cst(3);
    let l1 = lit(w.eq(a, b));
    let l2 = lit(w.eq(a, c));
    let mut cc = NaiveCC::new(w.b);
    cc.push_level();
    cc.merge(a, b, l1);
    cc.pop_levels(1);
    cc.merge(a, c, l2);
    let class = cc.closure(&w.m);
    assert_eq!(class[a], class[c]);
    assert_ne!(class[a], class[b]);
}

#[test]
fn push_then_pop_restores_the_state() {
    let mut w = World::new();
    let a = w.cst(1);
    let b = w.cst(2);
    let c = w.cst(3);
    let ab = w.eq(a, b);
    let ac = w.eq(a, c);
    let bc = w.eq(b, c);
    let mut cc = NaiveCC::new(w.b);
    cc.add_literal(ac);
    cc.assert_lit(&w.m, lit(ab));
    let before = cc.final_check(&w.m);
    let class_before = cc.closure(&w.m);
    cc.push_level();
    cc.merge(b, c, lit(bc));
    cc.push_level();
    cc.assert_lit(&w.m, lit(ac).neg());
    assert!(cc.final_check(&w.m).is_err());
    cc.pop_levels(2);
    assert_eq!(cc.final_check(&w.m), before);
    assert_eq!(cc.closure(&w.m), class_before);
    assert_eq!(cc.merges.len(), 1);
    assert!(cc.levels.is_empty());
}

#[test]
fn false_equality_between_equal_terms_conflicts() {
    let mut w = World::new();
    let a = w.cst(1);
    let aa = w.eq(a, a);
    let mut cc = NaiveCC::new(w.b);
    cc.assert_lit(&w.m, lit(aa).neg());
    assert_eq!(cc.final_check(&w.m).unwrap_err(), vec![lit(aa).neg()]);
}

#[test]
fn boolean_atoms_follow_their_sign() {
    let mut w = World::new();
    let ty_bool = w.m.mk(Node::TyBool);
    let p = w.m.mk(Node::Const(7, Some(ty_bool)));
    let q = w.m.mk(Node::Const(8, Some(ty_bool)));
    let pq = w.eq(p, q);
    let mut cc = NaiveCC::new(w.b);
    cc.add_literal(pq);
    cc.assert_lit(&w.m, lit(p));
    cc.assert_lit(&w.m, lit(q).neg());
    assert_eq!(cc.final_check(&w.m).unwrap(), vec![]);
    cc.assert_lit(&w.m, lit(pq));
    assert!(cc.final_check(&w.m).is_err());
}
