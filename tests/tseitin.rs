use batsmt_tseitin::lits::Lit;
use batsmt_tseitin::terms::{Node, Term, Terms};
use batsmt_tseitin::simp::is_wff;
use batsmt_tseitin::tseitin::{term_to_lit, Tseitin};

struct Env {
    m: Terms,
    ty_bool: Term,
    ty_u: Term,
}

impl Env {
    fn new() -> Env {
        let mut m = Terms::new();
        let ty_bool = m.mk(Node::TyBool);
        let ty_u = m.mk(Node::Const(0, None));
        Env { m, ty_bool, ty_u }
    }

    fn bool_atom(&mut self, sym: u32) -> Term {
        self.m.mk(Node::Const(sym, Some(self.ty_bool)))
    }

    fn u_const(&mut self, sym: u32) -> Term {
        self.m.mk(Node::Const(sym, Some(self.ty_u)))
    }

    fn mk(&mut self, n: Node) -> Term {
        self.m.mk(n)
    }
}

fn node(env: &Env, t: Term) -> Node {
    env.m.view_term(t).clone()
}

/// Value of a literal under an assignment of its atom.
fn lit_value(l: &Lit, val: &dyn Fn(Term) -> bool) -> bool {
    val(l.atom) == l.sign
}

/// Brute-force satisfiability of a set of clauses.
fn cnf_sat(cs: &[Vec<Lit>]) -> bool {
    let mut atoms: Vec<Term> = Vec::new();
    for c in cs {
        for l in c {
            if !atoms.contains(&l.atom) {
                atoms.push(l.atom);
            }
        }
    }
    assert!(atoms.len() <= 16);
    for bits in 0u32..(1u32 << atoms.len()) {
        let val = |t: Term| {
            let i = atoms.iter().position(|a| *a == t).unwrap();
            bits & (1 << i) != 0
        };
        if cs.iter().all(|c| c.iter().any(|l| lit_value(l, &val))) {
            return true;
        }
    }
    false
}

/// Propositional value of a formula over Boolean atoms.
fn eval(env: &Env, t: Term, val: &dyn Fn(Term) -> bool) -> bool {
    match node(env, t) {
        Node::Bool(b) => b,
        Node::Not(a) => !eval(env, a, val),
        Node::And(xs) => xs.iter().all(|x| eval(env, *x, val)),
        Node::Or(xs) => xs.iter().any(|x| eval(env, *x, val)),
        Node::Imply(xs) => {
            let n = xs.len();
            xs[..n - 1].iter().any(|x| !eval(env, *x, val)) || eval(env, xs[n - 1], val)
        },
        Node::Const(..) => val(t),
        other => panic!("not a propositional formula: {:?}", other),
    }
}

fn formula_sat(env: &Env, t: Term, atoms: &[Term]) -> bool {
    for bits in 0u32..(1u32 << atoms.len()) {
        let val = |x: Term| {
            let i = atoms.iter().position(|a| *a == x).unwrap();
            bits & (1 << i) != 0
        };
        if eval(env, t, &val) {
            return true;
        }
    }
    false
}

fn clauses_of(env: &mut Env, ts: &mut Tseitin, t: Term) -> Vec<Vec<Lit>> {
    ts.clauses(&mut env.m, t);
    ts.clause_set().clone()
}

#[test]
fn hash_consing_shares_terms() {
    let mut env = Env::new();
    let a = env.bool_atom(1);
    let b = env.bool_atom(2);
    let x = env.mk(Node::And(vec![a, b]));
    let y = env.mk(Node::And(vec![a, b]));
    let z = env.mk(Node::And(vec![b, a]));
    assert_eq!(x, y);
    assert_ne!(x, z);
    assert_eq!(env.bool_atom(1), a);
}

#[test]
fn node_queries() {
    assert!(Node::Bool(true).is_bool());
    assert!(Node::Bool(true).is_true());
    assert!(!Node::Bool(true).is_false());
    assert!(Node::Bool(false).is_false());
    assert!(!Node::TyBool.is_bool());
}

#[test]
fn simplify_distinct_three_is_three_disequalities() {
    let mut env = Env::new();
    let a = env.u_const(1);
    let b = env.u_const(2);
    let c = env.u_const(3);
    let d = env.mk(Node::Distinct(vec![a, b, c]));
    let mut ts = Tseitin::new();
    let s = ts.simplify(&mut env.m, d);
    let xs = match node(&env, s) {
        Node::And(xs) => xs,
        other => panic!("expected a conjunction, got {:?}", other),
    };
    assert_eq!(xs.len(), 3);
    let mut pairs = Vec::new();
    for x in &xs {
        match node(&env, *x) {
            Node::Not(e) => match node(&env, e) {
                Node::Eq(p, q) => pairs.push((p, q)),
                other => panic!("expected an equality, got {:?}", other),
            },
            other => panic!("expected a negation, got {:?}", other),
        }
    }
    pairs.sort();
    assert_eq!(pairs, vec![(a, b), (a, c), (b, c)]);
    // simplifying again is a fixed point
    assert_eq!(ts.simplify(&mut env.m, s), s);
    assert_eq!(ts.simplify(&mut env.m, d), s);
}

#[test]
fn simplify_distinct_small() {
    let mut env = Env::new();
    let a = env.u_const(1);
    let b = env.u_const(2);
    let mut ts = Tseitin::new();
    let d1 = env.mk(Node::Distinct(vec![a]));
    let s1 = ts.simplify(&mut env.m, d1);
    assert!(node(&env, s1).is_true());
    let d2 = env.mk(Node::Distinct(vec![a, b]));
    let s2 = ts.simplify(&mut env.m, d2);
    let eq = env.mk(Node::Eq(a, b));
    assert!(matches!(node(&env, s2), Node::Not(e) if e == eq));
    let d3 = env.mk(Node::Distinct(vec![a, a]));
    let s3 = ts.simplify(&mut env.m, d3);
    assert!(node(&env, s3).is_false());
}

#[test]
fn simplify_trivial_equality_and_negations() {
    let mut env = Env::new();
    let a = env.u_const(1);
    let p = env.bool_atom(5);
    let mut ts = Tseitin::new();
    let e = env.mk(Node::Eq(a, a));
    let s = ts.simplify(&mut env.m, e);
    assert!(node(&env, s).is_true());
    let t = env.mk(Node::Bool(true));
    let nt = env.mk(Node::Not(t));
    let s = ts.simplify(&mut env.m, nt);
    assert!(node(&env, s).is_false());
    let f = env.mk(Node::Bool(false));
    let nf = env.mk(Node::Not(f));
    let s = ts.simplify(&mut env.m, nf);
    assert!(node(&env, s).is_true());
    let np = env.mk(Node::Not(p));
    let nnp = env.mk(Node::Not(np));
    assert_eq!(ts.simplify(&mut env.m, nnp), p);
}

#[test]
fn simplify_flattens_sorts_and_dedups() {
    let mut env = Env::new();
    let p = env.bool_atom(1);
    let q = env.bool_atom(2);
    let r = env.bool_atom(3);
    let t = env.mk(Node::Bool(true));
    let inner = env.mk(Node::And(vec![r, p]));
    let outer = env.mk(Node::And(vec![q, inner, t, p]));
    let mut ts = Tseitin::new();
    let s = ts.simplify(&mut env.m, outer);
    match node(&env, s) {
        Node::And(xs) => assert_eq!(xs, vec![p, q, r]),
        other => panic!("expected a conjunction, got {:?}", other),
    }
}

#[test]
fn simplify_absorbing_elements() {
    let mut env = Env::new();
    let p = env.bool_atom(1);
    let q = env.bool_atom(2);
    let t = env.mk(Node::Bool(true));
    let f = env.mk(Node::Bool(false));
    let mut ts = Tseitin::new();
    let a = env.mk(Node::And(vec![p, f, q]));
    let s = ts.simplify(&mut env.m, a);
    assert!(node(&env, s).is_false());
    let o = env.mk(Node::Or(vec![p, t, q]));
    let s = ts.simplify(&mut env.m, o);
    assert!(node(&env, s).is_true());
    let o2 = env.mk(Node::Or(vec![f, q]));
    let s = ts.simplify(&mut env.m, o2);
    match node(&env, s) {
        Node::Or(xs) => assert_eq!(xs, vec![q]),
        other => panic!("expected a disjunction, got {:?}", other),
    }
}

#[test]
fn simplify_implication_becomes_disjunction() {
    let mut env = Env::new();
    let p = env.bool_atom(1);
    let q = env.bool_atom(2);
    let i = env.mk(Node::Imply(vec![p, q]));
    let mut ts = Tseitin::new();
    let s = ts.simplify(&mut env.m, i);
    let np = env.mk(Node::Not(p));
    let mut expected = vec![np, q];
    expected.sort();
    match node(&env, s) {
        Node::Or(xs) => assert_eq!(xs, expected),
        other => panic!("expected a disjunction, got {:?}", other),
    }
}

#[test]
fn simplify_ite() {
    let mut env = Env::new();
    let b = env.u_const(1);
    let c = env.u_const(2);
    let p = env.bool_atom(3);
    let t = env.mk(Node::Bool(true));
    let f = env.mk(Node::Bool(false));
    let mut ts = Tseitin::new();
    let i1 = env.mk(Node::Ite(t, b, c));
    assert_eq!(ts.simplify(&mut env.m, i1), b);
    let i2 = env.mk(Node::Ite(f, b, c));
    assert_eq!(ts.simplify(&mut env.m, i2), c);
    let i3 = env.mk(Node::Ite(p, b, b));
    assert_eq!(ts.simplify(&mut env.m, i3), b);
    let i4 = env.mk(Node::Ite(p, b, c));
    assert_eq!(ts.simplify(&mut env.m, i4), i4);
}

#[test]
fn simplify_rebuilds_applications() {
    let mut env = Env::new();
    let f = env.u_const(9);
    let a = env.u_const(1);
    let b = env.u_const(2);
    let d = env.mk(Node::Distinct(vec![a, b]));
    let app = env.mk(Node::App(f, vec![d, a], Some(env.ty_bool)));
    let mut ts = Tseitin::new();
    let s = ts.simplify(&mut env.m, app);
    let eq = env.mk(Node::Eq(a, b));
    let neq = env.mk(Node::Not(eq));
    match node(&env, s) {
        Node::App(g, xs, ty) => {
            assert_eq!(g, f);
            assert_eq!(xs, vec![neq, a]);
            assert_eq!(ty, Some(env.ty_bool));
        },
        other => panic!("expected an application, got {:?}", other),
    }
}

#[test]
fn simplify_is_idempotent_on_several_formulas() {
    let mut env = Env::new();
    let p = env.bool_atom(1);
    let q = env.bool_atom(2);
    let r = env.bool_atom(3);
    let np = env.mk(Node::Not(p));
    let i = env.mk(Node::Imply(vec![np, q, r]));
    let a = env.mk(Node::And(vec![i, p]));
    let o = env.mk(Node::Or(vec![a, np, i]));
    let mut ts = Tseitin::new();
    for t in [p, np, i, a, o] {
        let s = ts.simplify(&mut env.m, t);
        assert_eq!(ts.simplify(&mut env.m, s), s);
    }
}

#[test]
fn term_to_lit_classifies() {
    let mut env = Env::new();
    let a = env.u_const(1);
    let b = env.u_const(2);
    let p = env.bool_atom(3);
    let q = env.bool_atom(4);
    let np = env.mk(Node::Not(p));
    let nnp = env.mk(Node::Not(np));
    let l = term_to_lit(&mut env.m, nnp);
    assert_eq!(l, Lit { atom: p, sign: true, pure_bool: false });
    let l = term_to_lit(&mut env.m, np);
    assert_eq!(l, Lit { atom: p, sign: false, pure_bool: false });
    let and = env.mk(Node::And(vec![p, q]));
    let nand = env.mk(Node::Not(and));
    let l = term_to_lit(&mut env.m, nand);
    assert_eq!(l, Lit { atom: and, sign: false, pure_bool: true });
    let d = env.mk(Node::Distinct(vec![a, b]));
    let l = term_to_lit(&mut env.m, d);
    let eq = env.mk(Node::Eq(a, b));
    assert_eq!(l, Lit { atom: eq, sign: false, pure_bool: false });
    assert_eq!(l.neg(), Lit { atom: eq, sign: true, pure_bool: false });
    assert!(!l.is_pure_bool());
}

#[test]
fn tseitin_excluded_middle_is_sat() {
    let mut env = Env::new();
    let a = env.bool_atom(1);
    let na = env.mk(Node::Not(a));
    let f = env.mk(Node::Or(vec![a, na]));
    let mut ts = Tseitin::new();
    let cs = clauses_of(&mut env, &mut ts, f);
    assert!(cnf_sat(&cs));
    let top = cs.last().unwrap();
    assert_eq!(top.len(), 1);
    assert!(top[0].pure_bool && top[0].sign);
}

#[test]
fn tseitin_contradiction_is_unsat() {
    let mut env = Env::new();
    let a = env.bool_atom(1);
    let na = env.mk(Node::Not(a));
    let f = env.mk(Node::And(vec![a, na]));
    let mut ts = Tseitin::new();
    let cs = clauses_of(&mut env, &mut ts, f);
    assert!(!cnf_sat(&cs));
}

#[test]
fn tseitin_and_clauses_shape() {
    let mut env = Env::new();
    let p = env.bool_atom(1);
    let q = env.bool_atom(2);
    let f = env.mk(Node::And(vec![p, q]));
    let mut ts = Tseitin::new();
    let cs = clauses_of(&mut env, &mut ts, f);
    let l = Lit { atom: f, sign: true, pure_bool: true };
    let lp = Lit { atom: p, sign: true, pure_bool: false };
    let lq = Lit { atom: q, sign: true, pure_bool: false };
    assert_eq!(cs, vec![
        vec![l.neg(), lp],
        vec![l.neg(), lq],
        vec![lp.neg(), lq.neg(), l],
        vec![l],
    ]);
    assert_eq!(ts.atoms().len(), 2);
    assert!(ts.atoms().contains(&lp));
    assert!(ts.atoms().contains(&lq));
}

#[test]
fn tseitin_defines_each_term_once_until_clear() {
    let mut env = Env::new();
    let p = env.bool_atom(1);
    let q = env.bool_atom(2);
    let f = env.mk(Node::Or(vec![p, q]));
    let mut ts = Tseitin::new();
    let cs1 = clauses_of(&mut env, &mut ts, f);
    assert_eq!(cs1.len(), 4);
    let cs2 = clauses_of(&mut env, &mut ts, f);
    assert_eq!(cs2.len(), 1);
    ts.clear();
    let cs3 = clauses_of(&mut env, &mut ts, f);
    assert_eq!(cs3, cs1);
}

#[test]
fn tseitin_constants() {
    let mut env = Env::new();
    let t = env.mk(Node::Bool(true));
    let f = env.mk(Node::Bool(false));
    let mut ts = Tseitin::new();
    let cs = clauses_of(&mut env, &mut ts, t);
    assert_eq!(cs, vec![vec![Lit { atom: t, sign: true, pure_bool: true }]; 2]);
    assert!(cnf_sat(&cs));
    let cs = clauses_of(&mut env, &mut ts, f);
    assert_eq!(cs, vec![
        vec![Lit { atom: f, sign: false, pure_bool: true }],
        vec![Lit { atom: f, sign: true, pure_bool: true }],
    ]);
    assert!(!cnf_sat(&cs));
}

#[test]
fn tseitin_records_theory_atoms() {
    let mut env = Env::new();
    let a = env.u_const(1);
    let b = env.u_const(2);
    let c = env.u_const(3);
    let p = env.bool_atom(4);
    let eq = env.mk(Node::Eq(a, b));
    let ite = env.mk(Node::Ite(p, a, c));
    let eq2 = env.mk(Node::Eq(ite, b));
    let f = env.mk(Node::Or(vec![eq, eq2]));
    let mut ts = Tseitin::new();
    ts.clauses(&mut env.m, f);
    let atoms = ts.atoms();
    assert!(atoms.contains(&Lit { atom: eq, sign: true, pure_bool: false }));
    assert!(atoms.contains(&Lit { atom: eq2, sign: true, pure_bool: false }));
    assert!(atoms.contains(&Lit { atom: p, sign: true, pure_bool: false }));
    assert_eq!(atoms.len(), 3);
}

#[test]
fn tseitin_is_equisatisfiable_on_small_formulas() {
    let mut env = Env::new();
    let p = env.bool_atom(1);
    let q = env.bool_atom(2);
    let r = env.bool_atom(3);
    let np = env.mk(Node::Not(p));
    let nq = env.mk(Node::Not(q));
    let pq = env.mk(Node::And(vec![p, q]));
    let npq = env.mk(Node::Not(pq));
    let f1 = env.mk(Node::And(vec![npq, p, q]));
    let f2 = env.mk(Node::Or(vec![pq, r]));
    let f3 = env.mk(Node::Imply(vec![p, q, r]));
    let nr = env.mk(Node::Not(r));
    let f4 = env.mk(Node::And(vec![f3, p, q, nr]));
    let f5 = env.mk(Node::Or(vec![np, nq, f1]));
    let f6 = env.mk(Node::And(vec![f5, pq]));
    let atoms = [p, q, r];
    for f in [f1, f2, f3, f4, f5, f6] {
        let mut ts = Tseitin::new();
        let cs = clauses_of(&mut env, &mut ts, f);
        assert_eq!(cnf_sat(&cs), formula_sat(&env, f, &atoms), "formula {}", f);
    }
}

#[test]
fn well_formed_formulas() {
    let mut env = Env::new();
    let p = env.bool_atom(1);
    let a = env.u_const(2);
    let f = env.mk(Node::And(vec![p, a]));
    assert!(is_wff(&env.m, f));
    let bad = env.mk(Node::Or(vec![p, env.ty_bool]));
    assert!(!is_wff(&env.m, bad));
    assert!(!is_wff(&env.m, env.ty_bool));
    assert!(!is_wff(&env.m, 10_000));
}
