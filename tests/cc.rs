use batsmt_tseitin::cc::CC;
use batsmt_tseitin::lits::Lit;
use batsmt_tseitin::naive_cc::{Builtins, NaiveCC};
use batsmt_tseitin::terms::{Node, Term, Terms};

struct Arena {
    m: Terms,
    b: Builtins,
    u: Term,
}

impl Arena {
    fn new() -> Arena {
        let mut m = Terms::new();
        let true_term = m.mk(Node::Bool(true));
        let false_term = m.mk(Node::Bool(false));
        let u = m.mk(Node::Const(0, None));
        Arena { m, b: Builtins { true_term, false_term }, u }
    }

    fn cst(&mut self, sym: u32) -> Term {
        self.m.mk(Node::Const(sym, Some(self.u)))
    }

    fn app(&mut self, f: Term, args: Vec<Term>) -> Term {
        self.m.mk(Node::App(f, args, Some(self.u)))
    }

    fn eq(&mut self, a: Term, b: Term) -> Term {
        self.m.mk(Node::Eq(a, b))
    }
}

fn pos(atom: Term) -> Lit {
    Lit { atom, sign: true, pure_bool: false }
}

#[test]
fn cc_congruence_shares_class() {
    let mut w = Arena::new();
    let f = w.cst(10);
    let a = w.cst(1);
    let b = w.cst(2);
    let fa = w.app(f, vec![a]);
    let fb = w.app(f, vec![b]);
    let l1 = pos(w.eq(fa, fb));
    let l2 = pos(w.eq(a, b));
    let mut cc = CC::new(w.b);
    cc.merge(&w.m, a, b, l2).unwrap();
    assert!(cc.final_check(&w.m).is_ok());
    assert_eq!(cc.find(fa), cc.find(fb));
    cc.merge(&w.m, fa, fb, l1).unwrap();
    assert!(cc.final_check(&w.m).is_ok());
    assert_eq!(cc.find(fa), cc.find(fb));
}

#[test]
fn cc_transitivity_conflict() {
    let mut w = Arena::new();
    let a = w.cst(1);
    let b = w.cst(2);
    let c = w.cst(3);
    let ab = w.eq(a, b);
    let bc = w.eq(b, c);
    let ac = w.eq(a, c);
    let mut cc = CC::new(w.b);
    cc.assert_lit(&w.m, pos(ab)).unwrap();
    cc.assert_lit(&w.m, pos(bc)).unwrap();
    cc.assert_lit(&w.m, pos(ac).neg()).unwrap();
    let conflict = cc.final_check(&w.m).unwrap_err();
    assert_eq!(conflict, vec![pos(ab), pos(bc), pos(ac).neg()]);
}

#[test]
fn cc_propagates_congruent_equality() {
    let mut w = Arena::new();
    let f = w.cst(10);
    let a = w.cst(1);
    let b = w.cst(2);
    let b2 = w.cst(3);
    let c = w.cst(4);
    let d = w.cst(5);
    let fab = w.app(f, vec![a, b]);
    let fab2 = w.app(f, vec![a, b2]);
    let e1 = w.eq(fab, c);
    let e2 = w.eq(fab2, d);
    let e3 = w.eq(b, b2);
    let cd = w.eq(c, d);
    let mut cc = CC::new(w.b);
    cc.add_literal(cd);
    cc.assert_lit(&w.m, pos(e1)).unwrap();
    cc.assert_lit(&w.m, pos(e2)).unwrap();
    assert_eq!(cc.final_check(&w.m).unwrap(), vec![]);
    cc.assert_lit(&w.m, pos(e3)).unwrap();
    assert_eq!(cc.final_check(&w.m).unwrap(), vec![pos(cd)]);
}

#[test]
fn cc_pop_then_merge_other() {
    let mut w = Arena::new();
    let a = w.cst(1);
    let b = w.cst(2);
    let c = w.cst(3);
    let l1 = pos(w.eq(a, b));
    let l2 = pos(w.eq(a, c));
    let mut cc = CC::new(w.b);
    cc.push_level();
    cc.merge(&w.m, a, b, l1).unwrap();
    assert_eq!(cc.find(a), cc.find(b));
    cc.pop_levels(1);
    cc.merge(&w.m, a, c, l2).unwrap();
    assert!(cc.final_check(&w.m).is_ok());
    assert_eq!(cc.find(a), cc.find(c));
    assert_ne!(cc.find(a), cc.find(b));
}

#[test]
fn cc_push_pop_restores_labels() {
    let mut w = Arena::new();
    let f = w.cst(10);
    let a = w.cst(1);
    let b = w.cst(2);
    let c = w.cst(3);
    let fa = w.app(f, vec![a]);
    let fc = w.app(f, vec![c]);
    let ab = w.eq(a, b);
    let bc = w.eq(b, c);
    let mut cc = CC::new(w.b);
    cc.assert_lit(&w.m, pos(ab)).unwrap();
    assert!(cc.final_check(&w.m).is_ok());
    let before: Vec<usize> = cc.class.vals.clone();
    let merges_before = cc.trail.merges.len();
    cc.push_level();
    cc.assert_lit(&w.m, pos(bc)).unwrap();
    assert!(cc.final_check(&w.m).is_ok());
    assert_eq!(cc.find(fa), cc.find(fc));
    cc.pop_levels(1);
    assert_eq!(cc.class.vals, before);
    assert_eq!(cc.trail.merges.len(), merges_before);
    assert_ne!(cc.find(fa), cc.find(fc));
}

#[test]
fn cc_terms_created_inside_a_level_start_fresh_after_pop() {
    let mut w = Arena::new();
    let a = w.cst(1);
    let b = w.cst(2);
    let mut cc = CC::new(w.b);
    cc.merge(&w.m, a, a, pos(a)).unwrap();
    cc.push_level();
    let c = w.cst(3);
    let ac = w.eq(a, c);
    cc.merge(&w.m, a, c, pos(ac)).unwrap();
    cc.pop_levels(1);
    assert_eq!(cc.find(c), c);
    assert!(cc.final_check(&w.m).is_ok());
    assert_ne!(cc.find(a), cc.find(c));
    assert_ne!(cc.find(a), cc.find(b));
}

#[test]
fn cc_agrees_with_naive_on_a_run() {
    let mut w = Arena::new();
    let f = w.cst(10);
    let g = w.cst(11);
    let xs: Vec<Term> = (1..6).map(|i| w.cst(i)).collect();
    let mut apps = Vec::new();
    for x in &xs {
        apps.push(w.app(f, vec![*x]));
        let gx = w.app(g, vec![*x, *x]);
        apps.push(gx);
    }
    let mut eqs = Vec::new();
    for i in 0..xs.len() {
        for j in (i + 1)..xs.len() {
            eqs.push(w.eq(xs[i], xs[j]));
        }
    }
    let fx0 = apps[0];
    let fx4 = apps[8];
    let e = w.eq(fx0, fx4);
    eqs.push(e);
    let script: Vec<(usize, bool)> = vec![(0, true), (4, true), (9, false), (7, true), (10, false), (3, false)];
    let mut cc = CC::new(w.b);
    let mut naive = NaiveCC::new(w.b);
    for atom in &eqs {
        cc.add_literal(*atom);
        naive.add_literal(*atom);
    }
    for (k, (idx, sign)) in script.iter().enumerate() {
        if k % 2 == 0 {
            cc.push_level();
            naive.push_level();
        }
        let l = Lit { atom: eqs[*idx], sign: *sign, pure_bool: false };
        naive.assert_lit(&w.m, l);
        if let Err(c) = cc.assert_lit(&w.m, l) {
            assert_eq!(naive.final_check(&w.m), Err(c));
            cc.pop_levels(1);
            naive.pop_levels(1);
            cc.push_level();
            naive.push_level();
            continue;
        }
        let r1 = cc.final_check(&w.m);
        let r2 = naive.final_check(&w.m);
        assert_eq!(r1.is_ok(), r2.is_ok());
        if let (Ok(p1), Ok(p2)) = (&r1, &r2) {
            assert_eq!(p1, p2);
        }
        if r1.is_err() {
            cc.pop_levels(1);
            naive.pop_levels(1);
            assert_eq!(cc.final_check(&w.m).is_ok(), naive.final_check(&w.m).is_ok());
            cc.push_level();
            naive.push_level();
        }
    }
}

#[test]
fn cc_explanation_of_congruence_is_the_argument_equality() {
    let mut w = Arena::new();
    let f = w.cst(10);
    let a = w.cst(1);
    let b = w.cst(2);
    let fa = w.app(f, vec![a]);
    let fb = w.app(f, vec![b]);
    let l1 = pos(w.eq(fa, fb));
    let l2 = pos(w.eq(a, b));
    let mut cc = CC::new(w.b);
    cc.merge(&w.m, a, b, l2).unwrap();
    cc.merge(&w.m, fa, fb, l1).unwrap();
    assert!(cc.final_check(&w.m).is_ok());
    assert_eq!(cc.explain(&w.m, fa, fb), Some(vec![l2]));
}

#[test]
fn cc_explanation_of_propagated_equality() {
    let mut w = Arena::new();
    let f = w.cst(10);
    let a = w.cst(1);
    let b = w.cst(2);
    let b2 = w.cst(3);
    let c = w.cst(4);
    let d = w.cst(5);
    let e = w.cst(6);
    let fab = w.app(f, vec![a, b]);
    let fab2 = w.app(f, vec![a, b2]);
    let e0 = w.eq(a, e);
    let e1 = w.eq(fab, c);
    let e2 = w.eq(fab2, d);
    let e3 = w.eq(b, b2);
    let mut cc = CC::new(w.b);
    cc.assert_lit(&w.m, pos(e0)).unwrap();
    cc.assert_lit(&w.m, pos(e1)).unwrap();
    cc.assert_lit(&w.m, pos(e2)).unwrap();
    cc.assert_lit(&w.m, pos(e3)).unwrap();
    assert!(cc.final_check(&w.m).is_ok());
    assert_eq!(cc.explain(&w.m, c, d), Some(vec![pos(e1), pos(e2), pos(e3)]));
    assert_eq!(cc.explain(&w.m, c, e), None);
}

#[test]
fn cc_pop_forgets_atoms_of_the_level() {
    let mut w = Arena::new();
    let a = w.cst(1);
    let b = w.cst(2);
    let ab = w.eq(a, b);
    let mut cc = CC::new(w.b);
    cc.push_level();
    cc.add_literal(ab);
    cc.assert_lit(&w.m, pos(ab)).unwrap();
    assert_eq!(cc.final_check(&w.m).unwrap(), vec![pos(ab)]);
    cc.pop_levels(1);
    assert!(cc.trail.atoms.is_empty());
    assert_eq!(cc.final_check(&w.m).unwrap(), vec![]);
}

#[test]
fn cc_explain_prop_of_propagated_equality() {
    let mut w = Arena::new();
    let f = w.cst(10);
    let a = w.cst(1);
    let b = w.cst(2);
    let b2 = w.cst(3);
    let c = w.cst(4);
    let d = w.cst(5);
    let fab = w.app(f, vec![a, b]);
    let fab2 = w.app(f, vec![a, b2]);
    let e1 = w.eq(fab, c);
    let e2 = w.eq(fab2, d);
    let e3 = w.eq(b, b2);
    let cd = w.eq(c, d);
    let mut cc = CC::new(w.b);
    cc.add_literal(cd);
    cc.assert_lit(&w.m, pos(e1)).unwrap();
    cc.assert_lit(&w.m, pos(e2)).unwrap();
    cc.assert_lit(&w.m, pos(e3)).unwrap();
    assert_eq!(cc.final_check(&w.m).unwrap(), vec![pos(cd)]);
    assert_eq!(cc.explain_prop(&w.m, pos(cd)), Some(vec![pos(e1), pos(e2), pos(e3)]));
    assert_eq!(cc.explain_prop(&w.m, pos(cd).neg()), None);
}

#[test]
fn cc_partial_check_reports_direct_facts() {
    let mut w = Arena::new();
    let ty_bool = w.m.mk(Node::TyBool);
    let p = w.m.mk(Node::Const(7, Some(ty_bool)));
    let q = w.m.mk(Node::Const(8, Some(ty_bool)));
    let mut cc = CC::new(w.b);
    cc.add_literal(p);
    cc.add_literal(q);
    cc.assert_lit(&w.m, pos(p)).unwrap();
    assert_eq!(cc.partial_check().unwrap(), vec![pos(p)]);
    cc.assert_lit(&w.m, pos(q).neg()).unwrap();
    assert_eq!(cc.partial_check().unwrap(), vec![pos(p), pos(q).neg()]);
    let pq = w.eq(p, q);
    assert_eq!(cc.assert_lit(&w.m, pos(pq)).unwrap_err(), vec![pos(p), pos(q).neg(), pos(pq)]);
    assert_eq!(cc.trail.merges.len(), 2);
    assert_eq!(cc.partial_check().unwrap(), vec![pos(p), pos(q).neg()]);
}

/// Small deterministic generator for reproducible random runs.
struct Lcg(u64);

impl Lcg {
    fn next(&mut self, n: usize) -> usize {
        self.0 = self.0.wrapping_mul(6364136223846793005).wrapping_add(1442695040888963407);
        ((self.0 >> 33) as usize) % n
    }
}

#[test]
fn cc_agrees_with_naive_on_random_runs() {
    for seed in 0..40u64 {
        let mut rng = Lcg(seed);
        let mut w = Arena::new();
        let f = w.cst(100);
        let consts: Vec<Term> = (1..6).map(|i| w.cst(i)).collect();
        let mut terms = consts.clone();
        for c in &consts {
            let fc = w.app(f, vec![*c]);
            terms.push(fc);
            let ffc = w.app(f, vec![fc]);
            terms.push(ffc);
        }
        let mut cc = CC::new(w.b);
        let mut naive = NaiveCC::new(w.b);
        let mut depth = 0usize;
        for _ in 0..60 {
            match rng.next(6) {
                0 => {
                    cc.push_level();
                    naive.push_level();
                    depth += 1;
                },
                1 if depth > 0 => {
                    let n = 1 + rng.next(depth);
                    cc.pop_levels(n);
                    naive.pop_levels(n);
                    depth -= n;
                },
                _ => {
                    let a = terms[rng.next(terms.len())];
                    let b = terms[rng.next(terms.len())];
                    let e = w.eq(a, b);
                    cc.add_literal(e);
                    naive.add_literal(e);
                    let l = Lit { atom: e, sign: rng.next(3) != 0, pure_bool: false };
                    naive.assert_lit(&w.m, l);
                    if let Err(c) = cc.assert_lit(&w.m, l) {
                        // the merge was refused; the reference closure has it and conflicts
                        assert_eq!(naive.final_check(&w.m), Err(c), "seed {}", seed);
                        if depth == 0 {
                            break;
                        }
                        cc.pop_levels(1);
                        naive.pop_levels(1);
                        depth -= 1;
                        continue;
                    }
                },
            }
            let r1 = cc.final_check(&w.m);
            let r2 = naive.final_check(&w.m);
            assert_eq!(r1, r2, "seed {}", seed);
            if r1.is_err() {
                if depth == 0 {
                    break;
                }
                cc.pop_levels(1);
                naive.pop_levels(1);
                depth -= 1;
            }
        }
    }
}
