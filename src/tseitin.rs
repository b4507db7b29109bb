//! Simplification of Boolean formulas and their Tseitin encoding.

use vstd::prelude::*;
use std::collections::HashSet;
use crate::terms::{Term, Terms, Node, NodeV, arena_wf, node_below, extends, lemma_extends_refl};
use crate::lits::Lit;
use crate::simp::{Simplifier, nf, wff, lemma_nf_extends, rewrites, reads, rewrites_keep};

verus! {

broadcast use vstd::std_specs::hash::group_hash_axioms;

/// Strip leading negations from `t`, flipping `sign` for each.
pub open spec fn unfold_not(ns: Seq<NodeV>, t: Term, sign: bool) -> (Term, bool)
    decreases t,
{
    if t < ns.len() {
        match ns[t as int] {
            NodeV::Not(a) => if a < t { unfold_not(ns, a, !sign) } else { (t, sign) },
            _ => (t, sign),
        }
    } else {
        (t, sign)
    }
}

/// The literal of a term whose shape is not a binary `distinct`: pure for
/// the Boolean constants and connectives, theory literal otherwise.
pub open spec fn lit_of(ns: Seq<NodeV>, t: Term) -> Lit {
    let (u, s) = unfold_not(ns, t, true);
    match ns[u as int] {
        NodeV::Bool(_) | NodeV::And(_) | NodeV::Or(_) | NodeV::Imply(_) | NodeV::Distinct(_) =>
            Lit { atom: u, sign: s, pure_bool: true },
        _ => Lit { atom: u, sign: s, pure_bool: false },
    }
}

pub open spec fn is_distinct2(v: NodeV) -> bool {
    match v {
        NodeV::Distinct(xs) => xs.len() == 2,
        _ => false,
    }
}

pub open spec fn is_ty_bool(v: NodeV) -> bool {
    match v {
        NodeV::TyBool => true,
        _ => false,
    }
}

proof fn lemma_unfold_not(ns: Seq<NodeV>, t: Term, sign: bool)
    requires
        arena_wf(ns),
        t < ns.len(),
    ensures
        unfold_not(ns, t, sign).0 < ns.len(),
        unfold_not(ns, t, sign).0 <= t,
        !(ns[unfold_not(ns, t, sign).0 as int] is Not),
    decreases t,
{
    if let NodeV::Not(a) = ns[t as int] {
        assert(node_below(ns[t as int], t as int));
        lemma_unfold_not(ns, a, !sign);
    }
}

/// Strip leading negations from `t`.
fn unfold_not_exec(terms: &Terms, t: Term, sign: bool) -> (r: (Term, bool))
    requires
        terms.wf(),
        terms.valid(t),
    ensures
        r == unfold_not(terms@, t, sign),
    decreases t,
{
    proof { assert(node_below(terms@[t as int], t as int)); }
    match terms.view_term(t) {
        Node::Not(a) => unfold_not_exec(terms, *a, !sign),
        _ => (t, sign),
    }
}

/// Map `t` to a literal: a theory literal for an atom, an equality or an
/// if-then-else; a pure Boolean one for a constant or a connective. A binary
/// `distinct(a, b)` becomes the negated theory literal of `a = b`.
pub fn term_to_lit(terms: &mut Terms, t: Term) -> (r: Lit)
    requires
        old(terms).wf(),
        old(terms).valid(t),
        !is_ty_bool(old(terms)@[unfold_not(old(terms)@, t, true).0 as int]),
    ensures
        final(terms).wf(),
        extends(old(terms)@, final(terms)@),
        ({
            let (u, s) = unfold_not(old(terms)@, t, true);
            if is_distinct2(old(terms)@[u as int]) {
                let xs = old(terms)@[u as int]->Distinct_0;
                &&& final(terms).valid(r.atom)
                &&& final(terms)@[r.atom as int] == NodeV::Eq(xs[0], xs[1])
                &&& r.sign == !s
                &&& !r.pure_bool
            } else {
                final(terms)@ == old(terms)@ && r == lit_of(old(terms)@, t)
            }
        }),
{
    proof {
        lemma_unfold_not(terms@, t, true);
        lemma_extends_refl(terms@);
    }
    let (u, sign) = unfold_not_exec(terms, t, true);
    proof { assert(node_below(terms@[u as int], u as int)); }
    match terms.view_term(u) {
        Node::Bool(_) | Node::And(_) | Node::Or(_) | Node::Imply(_) => Lit::new_b(u, sign),
        Node::Distinct(args) => {
            if args.len() == 2 {
                let a = args[0];
                let b = args[1];
                let eqn = terms.mk(Node::Eq(a, b));
                Lit::new_t(eqn, !sign)
            } else {
                Lit::new_b(u, sign)
            }
        },
        _ => Lit::new_t(u, sign),
    }
}


/// The literals of `xs`.
pub open spec fn lits_of(ns: Seq<NodeV>, xs: Seq<Term>) -> Seq<Lit> {
    xs.map(|i: int, x: Term| lit_of(ns, x))
}

pub open spec fn negs(ls: Seq<Lit>) -> Seq<Lit> {
    ls.map(|i: int, x: Lit| x.negate())
}

/// The clauses defining the simplified term `u`: for a conjunction `l` of
/// `x1 ... xn`, `not l \/ xi` for each `i` and `l \/ not x1 \/ ... \/ not xn`;
/// for a disjunction, `not xi \/ l` for each `i` and `x1 \/ ... \/ xn \/ not l`;
/// a unit clause for a Boolean constant; none for any other term.
pub open spec fn defs(ns: Seq<NodeV>, u: Term) -> Seq<Seq<Lit>> {
    let l = lit_of(ns, u);
    match ns[u as int] {
        NodeV::Bool(b) => seq![seq![Lit { atom: u, sign: b, pure_bool: true }]],
        NodeV::And(xs) => lits_of(ns, xs).map(|i: int, x: Lit| seq![l.negate(), x])
            + seq![negs(lits_of(ns, xs)).push(l)],
        NodeV::Or(xs) => lits_of(ns, xs).map(|i: int, x: Lit| seq![x.negate(), l])
            + seq![lits_of(ns, xs).push(l.negate())],
        _ => Seq::empty(),
    }
}

/// Whether `u` has a sort, and that sort is the sort of Booleans.
pub open spec fn has_ty_bool(ns: Seq<NodeV>, u: Term) -> bool {
    let ty = match ns[u as int] {
        NodeV::Const(_, ty) => ty,
        NodeV::App(_, _, ty) => ty,
        _ => None,
    };
    match ty {
        Some(b) => 0 <= b < ns.len() && ns[b as int] is TyBool,
        None => false,
    }
}

/// The literal that the theory is told about when `u` is met: a Boolean
/// atom, an equality, the argument of a negation, or the condition of an
/// if-then-else.
pub open spec fn atom_lit(ns: Seq<NodeV>, u: Term) -> Option<Lit> {
    match ns[u as int] {
        NodeV::Const(_, _) | NodeV::App(_, _, _) => if has_ty_bool(ns, u) {
            Some(lit_of(ns, u))
        } else {
            None
        },
        NodeV::Not(a) => Some(lit_of(ns, a)),
        NodeV::Eq(_, _) => Some(lit_of(ns, u)),
        NodeV::Ite(a, _, _) => Some(lit_of(ns, a)),
        _ => None,
    }
}

/// Every direct subterm of `u` is in `vis`.
pub open spec fn children_in(ns: Seq<NodeV>, vis: Set<Term>, u: Term) -> bool {
    match ns[u as int] {
        NodeV::Not(a) => vis.contains(a),
        NodeV::And(xs) => forall|i: int| 0 <= i < xs.len() ==> vis.contains(#[trigger] xs[i]),
        NodeV::Or(xs) => forall|i: int| 0 <= i < xs.len() ==> vis.contains(#[trigger] xs[i]),
        NodeV::Eq(a, b) => vis.contains(a) && vis.contains(b),
        NodeV::Ite(a, b, c) => vis.contains(a) && vis.contains(b) && vis.contains(c),
        NodeV::App(f, xs, _) => vis.contains(f) && forall|i: int| 0 <= i < xs.len() ==> vis.contains(#[trigger] xs[i]),
        _ => true,
    }
}

/// The visited terms are simplified and closed under subterms.
pub open spec fn closed(ns: Seq<NodeV>, vis: Set<Term>) -> bool {
    forall|u: Term| #[trigger] vis.contains(u) ==> nf(ns, u) && children_in(ns, vis, u)
}

pub open spec fn clauses_view(cs: Seq<Vec<Lit>>) -> Seq<Seq<Lit>> {
    cs.map_values(|c: Vec<Lit>| c@)
}

fn push_clause(cs: &mut Vec<Vec<Lit>>, c: Vec<Lit>)
    ensures
        clauses_view(final(cs)@) == clauses_view(old(cs)@).push(c@),
{
    let ghost c_v = c@;
    cs.push(c);
    assert(clauses_view(cs@) =~= clauses_view(old(cs)@).push(c_v));
}

/// Add `l` to `v` unless it is there already.
fn insert_lit(v: &mut Vec<Lit>, l: Lit)
    requires
        old(v)@.no_duplicates(),
    ensures
        final(v)@.no_duplicates(),
        forall|x: Lit| final(v)@.contains(x) <==> (old(v)@.contains(x) || x == l),
{
    let mut i: usize = 0;
    while i < v.len()
        invariant
            v@ == old(v)@,
            old(v)@.no_duplicates(),
            i <= v@.len(),
            forall|k: int| 0 <= k < i ==> v@[k] != l,
        decreases v@.len() - i,
    {
        if v[i] == l {
            assert(v@.no_duplicates());
            return;
        }
        i += 1;
    }
    v.push(l);
    assert(v@.no_duplicates()) by {
        assert forall|a: int, b: int| 0 <= a < v@.len() && 0 <= b < v@.len() && a != b implies v@[a] != v@[b] by {
            if a < old(v)@.len() && b < old(v)@.len() {
                assert(old(v)@[a] != old(v)@[b]);
            }
        }
    }
    assert forall|x: Lit| v@.contains(x) <==> (old(v)@.contains(x) || x == l) by {
        if old(v)@.contains(x) {
            let k = choose|k: int| 0 <= k < old(v)@.len() && old(v)@[k] == x;
            assert(v@[k] == x);
        }
        if v@.contains(x) && x != l {
            let k = choose|k: int| 0 <= k < v@.len() && v@[k] == x;
            assert(old(v)@[k] == x);
        }
        if x == l {
            assert(v@[v@.len() - 1] == x);
        }
    }
}


/// Add the literal in `o`, if any, to `v` unless it is there already.
fn insert_lit_opt(v: &mut Vec<Lit>, o: Option<Lit>)
    requires
        old(v)@.no_duplicates(),
    ensures
        final(v)@.no_duplicates(),
        forall|x: Lit| final(v)@.contains(x) <==> (old(v)@.contains(x) || o == Some(x)),
{
    if let Some(l) = o {
        insert_lit(v, l);
    }
}

/// The clauses defining each term of `order`, in that order.
pub open spec fn defs_of(ns: Seq<NodeV>, order: Seq<Term>) -> Seq<Seq<Lit>>
    decreases order.len(),
{
    if order.len() == 0 {
        Seq::empty()
    } else {
        defs_of(ns, order.drop_last()) + defs(ns, order.last())
    }
}

/// `x` is the atom literal of some term of `order`.
pub open spec fn atom_of_some(ns: Seq<NodeV>, order: Seq<Term>, x: Lit) -> bool {
    exists|k: int| 0 <= k < order.len() && atom_lit(ns, #[trigger] order[k]) == Some(x)
}

proof fn lemma_unfold_nf(ns: Seq<NodeV>, t: Term, sign: bool)
    requires
        nf(ns, t),
    ensures
        nf(ns, unfold_not(ns, t, sign).0),
    decreases t,
{
    if let NodeV::Not(a) = ns[t as int] {
        lemma_unfold_nf(ns, a, !sign);
    }
}

/// The literal of the simplified `t`.
fn nf_lit(m: &mut Terms, t: Term) -> (r: Lit)
    requires
        old(m).wf(),
        nf(old(m)@, t),
    ensures
        final(m)@ == old(m)@,
        final(m).wf(),
        r == lit_of(old(m)@, t),
{
    proof { lemma_unfold_nf(m@, t, true); }
    term_to_lit(m, t)
}

/// The literals of the simplified `xs`.
fn nf_lits(m: &mut Terms, xs: &Vec<Term>, Ghost(u): Ghost<Term>) -> (r: Vec<Lit>)
    requires
        old(m).wf(),
        forall|i: int| 0 <= i < xs@.len() ==> #[trigger] xs@[i] < u && nf(old(m)@, xs@[i]),
    ensures
        final(m)@ == old(m)@,
        final(m).wf(),
        r@ == lits_of(old(m)@, xs@),
{
    let mut r: Vec<Lit> = Vec::new();
    let mut i: usize = 0;
    while i < xs.len()
        invariant
            m@ == old(m)@,
            m.wf(),
            forall|j: int| 0 <= j < xs@.len() ==> #[trigger] xs@[j] < u && nf(old(m)@, xs@[j]),
            i <= xs@.len(),
            r@ == lits_of(old(m)@, xs@.take(i as int)),
        decreases xs@.len() - i,
    {
        assert(xs@[i as int] < u && nf(old(m)@, xs@[i as int]));
        let l = nf_lit(m, xs[i]);
        r.push(l);
        i += 1;
        assert(r@ =~= lits_of(old(m)@, xs@.take(i as int)));
    }
    assert(xs@.take(xs@.len() as int) =~= xs@);
    r
}

/// Whether the sort of `u` is the sort of Booleans.
fn has_ty_bool_exec(m: &Terms, u: Term) -> (r: bool)
    requires
        m.wf(),
        m.valid(u),
    ensures
        r == has_ty_bool(m@, u),
{
    let ty = match m.view_term(u) {
        Node::Const(_, ty) => *ty,
        Node::App(_, _, ty) => *ty,
        _ => None,
    };
    match ty {
        Some(b) => b < m.len() && matches!(m.view_term(b), Node::TyBool),
        None => false,
    }
}

/// State of the Tseitin transformation: the simplifier's memo table, the
/// terms already defined by clauses, and the output of the last call.
pub struct Tseitin {
    pub simp: Simplifier,
    /// Terms whose defining clauses were emitted since the last `clear`.
    pub visited: HashSet<Term>,
    /// Terms defined by the last call of `clauses`, in order.
    pub order: Ghost<Seq<Term>>,
    /// Clauses of the last call of `clauses`.
    pub cs: Vec<Vec<Lit>>,
    /// Literals of the atoms met so far, each once.
    pub lits: Vec<Lit>,
}

impl Tseitin {
    pub open spec fn inv(&self, ns: Seq<NodeV>) -> bool {
        &&& self.simp.inv(ns)
        &&& closed(ns, self.visited@)
        &&& self.lits@.no_duplicates()
    }

    /// Emit what the simplified `u` contributes: its defining clauses and its
    /// atom literal.
    fn emit(&mut self, m: &mut Terms, u: Term)
        requires
            old(m).wf(),
            nf(old(m)@, u),
            old(self).lits@.no_duplicates(),
        ensures
            final(m)@ == old(m)@,
            final(m).wf(),
            final(self).simp.map@ == old(self).simp.map@,
            final(self).visited@ == old(self).visited@,
            final(self).order == old(self).order,
            clauses_view(final(self).cs@) == clauses_view(old(self).cs@) + defs(old(m)@, u),
            final(self).lits@.no_duplicates(),
            forall|x: Lit| final(self).lits@.contains(x)
                <==> (old(self).lits@.contains(x) || atom_lit(old(m)@, u) == Some(x)),
    {
        let ghost ns = m@;
        let node = crate::simp::clone_node(m.view_term(u));
        assert(node_below(node@, u as int)) by {
            assert(arena_wf(m@));
        }
        match node {
            Node::Const(_, _) => {
                let o = if has_ty_bool_exec(m, u) { Some(nf_lit(m, u)) } else { None };
                insert_lit_opt(&mut self.lits, o);
                assert(clauses_view(self.cs@) =~= clauses_view(old(self).cs@) + defs(ns, u));
            },
            Node::App(_, _, _) => {
                let o = if has_ty_bool_exec(m, u) { Some(nf_lit(m, u)) } else { None };
                insert_lit_opt(&mut self.lits, o);
                assert(clauses_view(self.cs@) =~= clauses_view(old(self).cs@) + defs(ns, u));
            },
            Node::Not(a) => {
                let l = nf_lit(m, a);
                insert_lit(&mut self.lits, l);
                assert(clauses_view(self.cs@) =~= clauses_view(old(self).cs@) + defs(ns, u));
            },
            Node::Eq(_, _) => {
                let l = nf_lit(m, u);
                insert_lit(&mut self.lits, l);
                assert(clauses_view(self.cs@) =~= clauses_view(old(self).cs@) + defs(ns, u));
            },
            Node::Ite(a, _, _) => {
                let l = nf_lit(m, a);
                insert_lit(&mut self.lits, l);
                assert(clauses_view(self.cs@) =~= clauses_view(old(self).cs@) + defs(ns, u));
            },
            Node::Bool(b) => {
                let c = vec![Lit::new_b(u, b)];
                assert(c@ =~= seq![Lit { atom: u, sign: b, pure_bool: true }]);
                push_clause(&mut self.cs, c);
                assert(clauses_view(self.cs@) =~= clauses_view(old(self).cs@) + defs(ns, u));
            },
            Node::And(xs) => {
                let tmp = nf_lits(m, &xs, Ghost(u));
                let l = nf_lit(m, u);
                let mut i: usize = 0;
                while i < tmp.len()
                    invariant
                        i <= tmp@.len(),
                        self.simp.map@ == old(self).simp.map@,
                        self.visited@ == old(self).visited@,
                        self.order == old(self).order,
                        self.lits@ == old(self).lits@,
                        m@ == ns,
                        m.wf(),
                        tmp@ == lits_of(ns, xs@),
                        clauses_view(self.cs@) == clauses_view(old(self).cs@)
                            + tmp@.take(i as int).map(|k: int, x: Lit| seq![l.negate(), x]),
                    decreases tmp@.len() - i,
                {
                    let c = vec![l.neg(), tmp[i]];
                    assert(c@ =~= seq![l.negate(), tmp@[i as int]]);
                    push_clause(&mut self.cs, c);
                    i += 1;
                    assert(tmp@.take(i as int).map(|k: int, x: Lit| seq![l.negate(), x])
                        =~= tmp@.take(i - 1).map(|k: int, x: Lit| seq![l.negate(), x]).push(seq![l.negate(), tmp@[i - 1]]));
                }
                let mut tmp2: Vec<Lit> = Vec::new();
                let mut j: usize = 0;
                while j < tmp.len()
                    invariant
                        j <= tmp@.len(),
                        self.simp.map@ == old(self).simp.map@,
                        self.visited@ == old(self).visited@,
                        self.order == old(self).order,
                        self.lits@ == old(self).lits@,
                        m@ == ns,
                        m.wf(),
                        tmp2@ == negs(tmp@.take(j as int)),
                    decreases tmp@.len() - j,
                {
                    tmp2.push(tmp[j].neg());
                    j += 1;
                    assert(tmp2@ =~= negs(tmp@.take(j as int)));
                }
                tmp2.push(l);
                assert(tmp@.take(tmp@.len() as int) =~= tmp@);
                push_clause(&mut self.cs, tmp2);
                assert(clauses_view(self.cs@) =~= clauses_view(old(self).cs@) + defs(ns, u));
            },
            Node::Or(xs) => {
                let tmp = nf_lits(m, &xs, Ghost(u));
                let l = nf_lit(m, u);
                let mut i: usize = 0;
                while i < tmp.len()
                    invariant
                        i <= tmp@.len(),
                        self.simp.map@ == old(self).simp.map@,
                        self.visited@ == old(self).visited@,
                        self.order == old(self).order,
                        self.lits@ == old(self).lits@,
                        m@ == ns,
                        m.wf(),
                        tmp@ == lits_of(ns, xs@),
                        clauses_view(self.cs@) == clauses_view(old(self).cs@)
                            + tmp@.take(i as int).map(|k: int, x: Lit| seq![x.negate(), l]),
                    decreases tmp@.len() - i,
                {
                    let c = vec![tmp[i].neg(), l];
                    assert(c@ =~= seq![tmp@[i as int].negate(), l]);
                    push_clause(&mut self.cs, c);
                    i += 1;
                    assert(tmp@.take(i as int).map(|k: int, x: Lit| seq![x.negate(), l])
                        =~= tmp@.take(i - 1).map(|k: int, x: Lit| seq![x.negate(), l]).push(seq![tmp@[i - 1].negate(), l]));
                }
                let mut tmp2: Vec<Lit> = Vec::new();
                let mut j: usize = 0;
                while j < tmp.len()
                    invariant
                        j <= tmp@.len(),
                        self.simp.map@ == old(self).simp.map@,
                        self.visited@ == old(self).visited@,
                        self.order == old(self).order,
                        self.lits@ == old(self).lits@,
                        m@ == ns,
                        m.wf(),
                        tmp2@ == tmp@.take(j as int),
                    decreases tmp@.len() - j,
                {
                    tmp2.push(tmp[j]);
                    j += 1;
                    assert(tmp2@ =~= tmp@.take(j as int));
                }
                tmp2.push(l.neg());
                assert(tmp@.take(tmp@.len() as int) =~= tmp@);
                push_clause(&mut self.cs, tmp2);
                assert(clauses_view(self.cs@) =~= clauses_view(old(self).cs@) + defs(ns, u));
            },
            _ => {
                assert(clauses_view(self.cs@) =~= clauses_view(old(self).cs@) + defs(ns, u));
            },
        }
    }

    /// Relation, during a call of `clauses`, between the state and the
    /// visited terms `sv` and literals `sl` at the start of the call.
    pub open spec fn call_inv(&self, ns: Seq<NodeV>, sv: Set<Term>, sl: Seq<Lit>) -> bool {
        &&& forall|v: Term| #[trigger] self.visited@.contains(v) <==> (sv.contains(v) || self.order@.contains(v))
        &&& self.order@.no_duplicates()
        &&& forall|k: int| 0 <= k < self.order@.len() ==> !sv.contains(#[trigger] self.order@[k])
        &&& clauses_view(self.cs@) == defs_of(ns, self.order@)
        &&& forall|x: Lit| #[trigger] self.lits@.contains(x) <==> (sl.contains(x) || atom_of_some(ns, self.order@, x))
    }

    /// Define `u` and, first, every subterm of it that is not defined yet.
    fn visit(&mut self, m: &mut Terms, u: Term, Ghost(sv): Ghost<Set<Term>>, Ghost(sl): Ghost<Seq<Lit>>)
        requires
            old(m).wf(),
            nf(old(m)@, u),
            old(self).inv(old(m)@),
            old(self).call_inv(old(m)@, sv, sl),
        ensures
            final(m)@ == old(m)@,
            final(m).wf(),
            final(self).inv(final(m)@),
            final(self).call_inv(final(m)@, sv, sl),
            final(self).simp.map@ == old(self).simp.map@,
            final(self).visited@.contains(u),
            forall|v: Term| #[trigger] old(self).visited@.contains(v) ==> final(self).visited@.contains(v),
            forall|v: Term| #[trigger] final(self).visited@.contains(v) && !old(self).visited@.contains(v) ==> v <= u,
        decreases u, 1nat,
    {
        if self.visited.contains(&u) {
            return;
        }
        let ghost ns = m@;
        let node = crate::simp::clone_node(m.view_term(u));
        match node {
            Node::Not(a) => {
                self.visit(m, a, Ghost(sv), Ghost(sl));
            },
            Node::And(xs) => {
                self.visit_all(m, &xs, Ghost(u), Ghost(sv), Ghost(sl));
            },
            Node::Or(xs) => {
                self.visit_all(m, &xs, Ghost(u), Ghost(sv), Ghost(sl));
            },
            Node::Eq(a, b) => {
                self.visit(m, a, Ghost(sv), Ghost(sl));
                self.visit(m, b, Ghost(sv), Ghost(sl));
            },
            Node::Ite(a, b, c) => {
                self.visit(m, a, Ghost(sv), Ghost(sl));
                self.visit(m, b, Ghost(sv), Ghost(sl));
                self.visit(m, c, Ghost(sv), Ghost(sl));
            },
            Node::App(f, xs, _) => {
                self.visit(m, f, Ghost(sv), Ghost(sl));
                self.visit_all(m, &xs, Ghost(u), Ghost(sv), Ghost(sl));
            },
            _ => {},
        }
        assert(children_in(ns, self.visited@, u));
        let ghost vis1 = self.visited@;
        let ghost order1 = self.order@;
        let ghost lits1 = self.lits@;
        self.emit(m, u);
        self.visited.insert(u);
        self.order = Ghost(self.order@.push(u));
        proof {
            assert(self.order@.drop_last() =~= order1);
            assert(!order1.contains(u));
            assert forall|v: Term| #[trigger] self.visited@.contains(v) implies nf(ns, v) && children_in(ns, self.visited@, v) by {
                if v != u {
                    assert(vis1.contains(v));
                    assert(children_in(ns, vis1, v));
                }
            }
            assert forall|v: Term| #[trigger] self.visited@.contains(v) <==> (sv.contains(v) || self.order@.contains(v)) by {
                if order1.contains(v) {
                    let k = choose|k: int| 0 <= k < order1.len() && order1[k] == v;
                    assert(self.order@[k] == v);
                }
                if self.order@.contains(v) && v != u {
                    let k = choose|k: int| 0 <= k < self.order@.len() && self.order@[k] == v;
                    assert(order1[k] == v);
                }
                if v == u {
                    assert(self.order@[order1.len() as int] == u);
                }
            }
            assert forall|x: Lit| #[trigger] self.lits@.contains(x) <==> (sl.contains(x) || atom_of_some(ns, self.order@, x)) by {
                if atom_of_some(ns, order1, x) {
                    let k = choose|k: int| 0 <= k < order1.len() && atom_lit(ns, #[trigger] order1[k]) == Some(x);
                    assert(self.order@[k] == order1[k]);
                }
                if atom_lit(ns, u) == Some(x) {
                    assert(self.order@[order1.len() as int] == u);
                }
                if atom_of_some(ns, self.order@, x) && atom_lit(ns, u) != Some(x) {
                    let k = choose|k: int| 0 <= k < self.order@.len() && atom_lit(ns, #[trigger] self.order@[k]) == Some(x);
                    assert(order1[k] == self.order@[k]);
                }
            }
        }
    }

    /// Visit each of `xs`, all subterms of `u`.
    fn visit_all(&mut self, m: &mut Terms, xs: &Vec<Term>, Ghost(u): Ghost<Term>, Ghost(sv): Ghost<Set<Term>>, Ghost(sl): Ghost<Seq<Lit>>)
        requires
            old(m).wf(),
            forall|i: int| 0 <= i < xs@.len() ==> #[trigger] xs@[i] < u && nf(old(m)@, xs@[i]),
            old(self).inv(old(m)@),
            old(self).call_inv(old(m)@, sv, sl),
        ensures
            final(m)@ == old(m)@,
            final(m).wf(),
            final(self).inv(final(m)@),
            final(self).call_inv(final(m)@, sv, sl),
            final(self).simp.map@ == old(self).simp.map@,
            forall|i: int| 0 <= i < xs@.len() ==> final(self).visited@.contains(#[trigger] xs@[i]),
            forall|v: Term| #[trigger] old(self).visited@.contains(v) ==> final(self).visited@.contains(v),
            forall|v: Term| #[trigger] final(self).visited@.contains(v) && !old(self).visited@.contains(v) ==> v < u,
        decreases u, 0nat,
    {
        let mut i: usize = 0;
        while i < xs.len()
            invariant
                m@ == old(m)@,
                m.wf(),
                forall|j: int| 0 <= j < xs@.len() ==> #[trigger] xs@[j] < u && nf(old(m)@, xs@[j]),
                self.inv(m@),
                self.call_inv(m@, sv, sl),
                self.simp.map@ == old(self).simp.map@,
                i <= xs@.len(),
                forall|j: int| 0 <= j < i ==> self.visited@.contains(#[trigger] xs@[j]),
                forall|v: Term| #[trigger] old(self).visited@.contains(v) ==> self.visited@.contains(v),
                forall|v: Term| #[trigger] self.visited@.contains(v) && !old(self).visited@.contains(v) ==> v < u,
            decreases xs@.len() - i,
        {
            assert(xs@[i as int] < u && nf(old(m)@, xs@[i as int]));
            self.visit(m, xs[i], Ghost(sv), Ghost(sl));
            i += 1;
        }
    }

    /// A new transformation, with nothing cached or defined.
    pub fn new() -> (r: Tseitin)
        ensures
            r.simp.map@ == Map::<Term, Term>::empty(),
            r.visited@ == Set::<Term>::empty(),
            r.cs@.len() == 0,
            r.lits@.len() == 0,
            forall|ns: Seq<NodeV>| r.inv(ns),
    {
        Tseitin {
            simp: Simplifier::new(),
            visited: HashSet::new(),
            order: Ghost(Seq::empty()),
            cs: Vec::new(),
            lits: Vec::new(),
        }
    }

    /// Forget which terms were defined: later calls of `clauses` define
    /// them again when they meet them. The simplifier's memo table is kept.
    pub fn clear(&mut self)
        ensures
            final(self).visited@ == Set::<Term>::empty(),
            final(self).simp.map@ == old(self).simp.map@,
            final(self).cs@ == old(self).cs@,
            final(self).lits@ == old(self).lits@,
    {
        self.visited.clear();
    }

    /// The simplified form of `t`: free of `distinct` and implications,
    /// with flattened, sorted and deduplicated conjunctions and disjunctions,
    /// following the rewrite rules from the simplified forms of its subterms.
    /// A term simplified before keeps its earlier form, and the result is
    /// recorded as its own simplified form.
    pub fn simplify(&mut self, m: &mut Terms, t: Term) -> (r: Term)
        requires
            old(m).wf(),
            wff(old(m)@, t),
            old(self).inv(old(m)@),
        ensures
            final(m).wf(),
            extends(old(m)@, final(m)@),
            final(self).inv(final(m)@),
            forall|k: Term| #[trigger] old(self).simp.map@.contains_key(k) ==> final(self).simp.map@.contains_key(k),
            final(self).simp.map@.contains_key(t),
            final(self).simp.map@[t] == r,
            final(self).simp.map@.contains_key(r),
            final(self).simp.map@[r] == r,
            nf(final(m)@, r),
            old(self).simp.map@.contains_key(t) ==> final(m)@ == old(m)@ && r == old(self).simp.map@[t],
            !old(self).simp.map@.contains_key(t) && !reads(old(m)@[t as int], r)
                ==> rewrites(old(m)@[t as int], final(m)@, final(self).simp.map@, t, r),
            final(self).visited@ == old(self).visited@,
            final(self).lits@ == old(self).lits@,
            final(self).cs@ == old(self).cs@,
            final(self).order == old(self).order,
    {
        let ghost ns0 = m@;
        let ghost map0 = self.simp.map@;
        let r = self.simp.simplify_rec(m, t);
        let ghost map1 = self.simp.map@;
        let keep = match self.simp.map.get(&r) {
            Some(v) => *v == r,
            None => false,
        };
        if !keep {
            self.simp.map.insert(r, r);
        }
        proof {
            assert forall|u: Term| #[trigger] self.visited@.contains(u) implies nf(m@, u) && children_in(m@, self.visited@, u) by {
                lemma_nf_extends(ns0, m@, u);
                assert(children_in(ns0, self.visited@, u));
                assert(m@[u as int] == ns0[u as int]);
            }
            assert forall|k: Term| #[trigger] self.simp.map@.contains_key(k) implies k < m@.len() && nf(m@, self.simp.map@[k]) by {
                if k != r {
                    assert(map1.contains_key(k));
                }
            }
            if t != r {
                assert(self.simp.map@[t] == map1[t]);
            }
            if !map0.contains_key(t) && !keep && !reads(old(m)@[t as int], r) {
                rewrites_keep(old(m)@[t as int], m@, map1, t, r, r, r);
            }
        }
        r
    }

    /// Turn the formula `t` into clauses: `t` is simplified, each subterm of
    /// it not defined since the last `clear` gets its defining clauses, in
    /// the order the terms are first met, subterms first, and a unit clause
    /// asserts the literal of the simplified `t`. The literals of the atoms
    /// met are added to `lits`.
    pub fn clauses(&mut self, m: &mut Terms, t: Term)
        requires
            old(m).wf(),
            wff(old(m)@, t),
            old(self).inv(old(m)@),
        ensures
            final(m).wf(),
            extends(old(m)@, final(m)@),
            final(self).inv(final(m)@),
            final(self).simp.map@.contains_key(t),
            ({
                let ns = final(m)@;
                let t2 = final(self).simp.map@[t];
                let order = final(self).order@;
                &&& nf(ns, t2)
                &&& final(self).visited@.contains(t2)
                &&& clauses_view(final(self).cs@) == defs_of(ns, order) + seq![seq![lit_of(ns, t2)]]
                &&& order.no_duplicates()
                &&& forall|k: int| 0 <= k < order.len() ==> !old(self).visited@.contains(#[trigger] order[k])
                &&& forall|v: Term| #[trigger] final(self).visited@.contains(v)
                    <==> (old(self).visited@.contains(v) || order.contains(v))
                &&& forall|x: Lit| #[trigger] final(self).lits@.contains(x)
                    <==> (old(self).lits@.contains(x) || atom_of_some(ns, order, x))
            }),
    {
        let t2 = self.simplify(m, t);
        self.cs = Vec::new();
        self.order = Ghost(Seq::empty());
        let ghost sv = self.visited@;
        let ghost sl = self.lits@;
        proof {
            assert(clauses_view(self.cs@) =~= defs_of(m@, self.order@));
            assert forall|v: Term| #[trigger] self.visited@.contains(v) <==> (sv.contains(v) || self.order@.contains(v)) by {}
            assert forall|x: Lit| #[trigger] self.lits@.contains(x) <==> (sl.contains(x) || atom_of_some(m@, self.order@, x)) by {}
        }
        self.visit(m, t2, Ghost(sv), Ghost(sl));
        let top = nf_lit(m, t2);
        let c = vec![top];
        assert(c@ =~= seq![top]);
        push_clause(&mut self.cs, c);
    }

    /// The clauses of the last call of `clauses`.
    pub fn clause_set(&self) -> (r: &Vec<Vec<Lit>>)
        ensures
            r == &self.cs,
    {
        &self.cs
    }

    /// The literals of the atoms met since the transformation was created.
    pub fn atoms(&self) -> (r: &Vec<Lit>)
        ensures
            r == &self.lits,
    {
        &self.lits
    }
}


/// Simplifying twice is simplifying once: `simplify` records its result
/// `r` as the simplified form of `r`, and a term with a recorded form is
/// simplified to that form; so `simplify(simplify(t)) == simplify(t)`.
pub proof fn lemma_simplify_idempotent(ts: &Tseitin, ns: Seq<NodeV>, r: Term)
    requires
        ts.inv(ns),
        ts.simp.map@.contains_key(r),
        ts.simp.map@[r] == r,
    ensures
        nf(ns, r),
        ts.simp.map@[ts.simp.map@[r]] == ts.simp.map@[r],
{
}

} // verus!
