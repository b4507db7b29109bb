//! Simplification of Boolean formulas.
//!
//! `distinct` is expanded into disequalities, implications into
//! disjunctions, trivial equalities and negations of constants are folded,
//! and conjunctions and disjunctions are flattened, sorted, deduplicated and
//! cut short by their absorbing element.

use vstd::prelude::*;
use std::collections::HashMap;
use crate::terms::{
    Term, Terms, Node, NodeV, all_below, node_below, extends, lemma_extends_refl, lemma_extends_trans,
};

verus! {

broadcast use vstd::std_specs::hash::group_hash_axioms;

/// `t` is not the sort of Booleans.
pub open spec fn not_sort(ns: Seq<NodeV>, t: Term) -> bool {
    !(ns[t as int] is TyBool)
}

/// A well-formed formula: the sort of Booleans only ever stands in the
/// sort slot of a constant or an application, never as a subterm.
pub open spec fn wff(ns: Seq<NodeV>, t: Term) -> bool
    decreases t,
{
    t < ns.len() && not_sort(ns, t) && match ns[t as int] {
        NodeV::TyBool | NodeV::Bool(_) | NodeV::Const(_, _) => true,
        NodeV::Not(a) => a < t && wff(ns, a),
        NodeV::And(xs) => (forall|i: int| 0 <= i < xs.len() ==> #[trigger] xs[i] < t && wff(ns, xs[i])),
        NodeV::Or(xs) => (forall|i: int| 0 <= i < xs.len() ==> #[trigger] xs[i] < t && wff(ns, xs[i])),
        NodeV::Imply(xs) => (forall|i: int| 0 <= i < xs.len() ==> #[trigger] xs[i] < t && wff(ns, xs[i])),
        NodeV::Distinct(xs) => (forall|i: int| 0 <= i < xs.len() ==> #[trigger] xs[i] < t && wff(ns, xs[i])),
        NodeV::Eq(a, b) => a < t && b < t && wff(ns, a) && wff(ns, b),
        NodeV::Ite(a, b, c) => a < t && b < t && c < t && wff(ns, a) && wff(ns, b) && wff(ns, c),
        NodeV::App(f, xs, _) => f < t && wff(ns, f)
            && forall|i: int| 0 <= i < xs.len() ==> #[trigger] xs[i] < t && wff(ns, xs[i]),
    }
}

/// A simplified formula: well formed, and free of `distinct` and of
/// implications at every depth.
pub open spec fn nf(ns: Seq<NodeV>, t: Term) -> bool
    decreases t,
{
    t < ns.len() && not_sort(ns, t) && match ns[t as int] {
        NodeV::TyBool | NodeV::Bool(_) | NodeV::Const(_, _) => true,
        NodeV::Not(a) => a < t && nf(ns, a),
        NodeV::And(xs) => (forall|i: int| 0 <= i < xs.len() ==> #[trigger] xs[i] < t && nf(ns, xs[i])),
        NodeV::Or(xs) => (forall|i: int| 0 <= i < xs.len() ==> #[trigger] xs[i] < t && nf(ns, xs[i])),
        NodeV::Imply(_) | NodeV::Distinct(_) => false,
        NodeV::Eq(a, b) => a < t && b < t && nf(ns, a) && nf(ns, b),
        NodeV::Ite(a, b, c) => a < t && b < t && c < t && nf(ns, a) && nf(ns, b) && nf(ns, c),
        NodeV::App(f, xs, _) => f < t && nf(ns, f)
            && forall|i: int| 0 <= i < xs.len() ==> #[trigger] xs[i] < t && nf(ns, xs[i]),
    }
}

pub proof fn lemma_nf_extends(ns1: Seq<NodeV>, ns2: Seq<NodeV>, t: Term)
    requires
        extends(ns1, ns2),
        nf(ns1, t),
    ensures
        nf(ns2, t),
    decreases t,
{
    assert(ns2[t as int] == ns1[t as int]);
    match ns1[t as int] {
        NodeV::Not(a) => lemma_nf_extends(ns1, ns2, a),
        NodeV::And(xs) => {
            assert forall|i: int| 0 <= i < xs.len() implies #[trigger] xs[i] < t && nf(ns2, xs[i]) by {
                assert(xs[i] < t && nf(ns1, xs[i]));
                lemma_nf_extends(ns1, ns2, xs[i]);
            }
        },
        NodeV::Or(xs) => {
            assert forall|i: int| 0 <= i < xs.len() implies #[trigger] xs[i] < t && nf(ns2, xs[i]) by {
                assert(xs[i] < t && nf(ns1, xs[i]));
                lemma_nf_extends(ns1, ns2, xs[i]);
            }
        },
        NodeV::Eq(a, b) => {
            lemma_nf_extends(ns1, ns2, a);
            lemma_nf_extends(ns1, ns2, b);
        },
        NodeV::Ite(a, b, c) => {
            lemma_nf_extends(ns1, ns2, a);
            lemma_nf_extends(ns1, ns2, b);
            lemma_nf_extends(ns1, ns2, c);
        },
        NodeV::App(f, xs, _) => {
            lemma_nf_extends(ns1, ns2, f);
            assert forall|i: int| 0 <= i < xs.len() implies #[trigger] xs[i] < t && nf(ns2, xs[i]) by {
                assert(xs[i] < t && nf(ns1, xs[i]));
                lemma_nf_extends(ns1, ns2, xs[i]);
            }
        },
        _ => {},
    }
}

pub proof fn lemma_wff_extends(ns1: Seq<NodeV>, ns2: Seq<NodeV>, t: Term)
    requires
        extends(ns1, ns2),
        wff(ns1, t),
    ensures
        wff(ns2, t),
    decreases t,
{
    assert(ns2[t as int] == ns1[t as int]);
    match ns1[t as int] {
        NodeV::Not(a) => lemma_wff_extends(ns1, ns2, a),
        NodeV::And(xs) => {
            assert forall|i: int| 0 <= i < xs.len() implies #[trigger] xs[i] < t && wff(ns2, xs[i]) by {
                assert(xs[i] < t && wff(ns1, xs[i]));
                lemma_wff_extends(ns1, ns2, xs[i]);
            }
        },
        NodeV::Or(xs) => {
            assert forall|i: int| 0 <= i < xs.len() implies #[trigger] xs[i] < t && wff(ns2, xs[i]) by {
                assert(xs[i] < t && wff(ns1, xs[i]));
                lemma_wff_extends(ns1, ns2, xs[i]);
            }
        },
        NodeV::Imply(xs) => {
            assert forall|i: int| 0 <= i < xs.len() implies #[trigger] xs[i] < t && wff(ns2, xs[i]) by {
                assert(xs[i] < t && wff(ns1, xs[i]));
                lemma_wff_extends(ns1, ns2, xs[i]);
            }
        },
        NodeV::Distinct(xs) => {
            assert forall|i: int| 0 <= i < xs.len() implies #[trigger] xs[i] < t && wff(ns2, xs[i]) by {
                assert(xs[i] < t && wff(ns1, xs[i]));
                lemma_wff_extends(ns1, ns2, xs[i]);
            }
        },
        NodeV::Eq(a, b) => {
            lemma_wff_extends(ns1, ns2, a);
            lemma_wff_extends(ns1, ns2, b);
        },
        NodeV::Ite(a, b, c) => {
            lemma_wff_extends(ns1, ns2, a);
            lemma_wff_extends(ns1, ns2, b);
            lemma_wff_extends(ns1, ns2, c);
        },
        NodeV::App(f, xs, _) => {
            lemma_wff_extends(ns1, ns2, f);
            assert forall|i: int| 0 <= i < xs.len() implies #[trigger] xs[i] < t && wff(ns2, xs[i]) by {
                assert(xs[i] < t && wff(ns1, xs[i]));
                lemma_wff_extends(ns1, ns2, xs[i]);
            }
        },
        _ => {},
    }
}

fn all_wff(m: &Terms, xs: &Vec<Term>, Ghost(t): Ghost<Term>) -> (r: bool)
    requires
        m.wf(),
        all_below(xs@, t as int),
    ensures
        r == forall|i: int| 0 <= i < xs@.len() ==> #[trigger] xs@[i] < t && wff(m@, xs@[i]),
    decreases t, 0nat,
{
    let mut i: usize = 0;
    while i < xs.len()
        invariant
            m.wf(),
            all_below(xs@, t as int),
            i <= xs@.len(),
            forall|j: int| 0 <= j < i ==> #[trigger] xs@[j] < t && wff(m@, xs@[j]),
        decreases xs@.len() - i,
    {
        assert(xs@[i as int] < t);
        if !is_wff(m, xs[i]) {
            return false;
        }
        i += 1;
    }
    true
}

/// Whether `t` is a well-formed formula.
pub fn is_wff(m: &Terms, t: Term) -> (r: bool)
    requires
        m.wf(),
    ensures
        r == wff(m@, t),
    decreases t, 1nat,
{
    if t >= m.len() {
        return false;
    }
    proof { assert(node_below(m@[t as int], t as int)); }
    match m.view_term(t) {
        Node::TyBool => false,
        Node::Bool(_) | Node::Const(_, _) => true,
        Node::Not(a) => is_wff(m, *a),
        Node::And(xs) => all_wff(m, xs, Ghost(t)),
        Node::Or(xs) => all_wff(m, xs, Ghost(t)),
        Node::Imply(xs) => all_wff(m, xs, Ghost(t)),
        Node::Distinct(xs) => all_wff(m, xs, Ghost(t)),
        Node::Eq(a, b) => is_wff(m, *a) && is_wff(m, *b),
        Node::Ite(a, b, c) => is_wff(m, *a) && is_wff(m, *b) && is_wff(m, *c),
        Node::App(f, xs, _) => is_wff(m, *f) && all_wff(m, xs, Ghost(t)),
    }
}

/// Every term of `xs` is simplified.
pub open spec fn all_nf(ns: Seq<NodeV>, xs: Seq<Term>) -> bool {
    forall|i: int| 0 <= i < xs.len() ==> #[trigger] nf(ns, xs[i])
}

pub proof fn lemma_all_nf_extends(ns1: Seq<NodeV>, ns2: Seq<NodeV>, xs: Seq<Term>)
    requires
        extends(ns1, ns2),
        all_nf(ns1, xs),
    ensures
        all_nf(ns2, xs),
{
    assert forall|i: int| 0 <= i < xs.len() implies #[trigger] nf(ns2, xs[i]) by {
        lemma_nf_extends(ns1, ns2, xs[i]);
    }
}

/// The memo table of the simplifier, over the arena `ns`: each cached
/// result is a simplified term.
pub open spec fn memo_ok(map: Map<Term, Term>, ns: Seq<NodeV>) -> bool {
    forall|k: Term| #[trigger] map.contains_key(k) ==> k < ns.len() && nf(ns, map[k])
}

pub proof fn lemma_memo_extends(map: Map<Term, Term>, ns1: Seq<NodeV>, ns2: Seq<NodeV>)
    requires
        extends(ns1, ns2),
        memo_ok(map, ns1),
    ensures
        memo_ok(map, ns2),
{
    assert forall|k: Term| #[trigger] map.contains_key(k) implies k < ns2.len() && nf(ns2, map[k]) by {
        lemma_nf_extends(ns1, ns2, map[k]);
    }
}

/// `xs` is strictly increasing.
pub open spec fn strictly_sorted(xs: Seq<Term>) -> bool {
    forall|i: int, j: int| 0 <= i < j < xs.len() ==> xs[i] < xs[j]
}

/// Insert `x` into the strictly increasing `v`, unless it is there already.
fn insert_sorted(v: &mut Vec<Term>, x: Term)
    requires
        strictly_sorted(old(v)@),
    ensures
        strictly_sorted(final(v)@),
        forall|y: Term| final(v)@.contains(y) <==> (old(v)@.contains(y) || y == x),
{
    let mut i: usize = 0;
    while i < v.len() && v[i] < x
        invariant
            i <= v@.len(),
            v@ == old(v)@,
            forall|k: int| 0 <= k < i ==> v@[k] < x,
        decreases v@.len() - i,
    {
        i += 1;
    }
    if i < v.len() && v[i] == x {
        return;
    }
    v.insert(i, x);
    assert forall|y: Term| v@.contains(y) <==> (old(v)@.contains(y) || y == x) by {
        if v@.contains(y) {
            let k = choose|k: int| 0 <= k < v@.len() && v@[k] == y;
            if k < i {
                assert(old(v)@[k] == y);
            } else if k > i {
                assert(old(v)@[k - 1] == y);
            }
        }
        if old(v)@.contains(y) {
            let k = choose|k: int| 0 <= k < old(v)@.len() && old(v)@[k] == y;
            if k < i {
                assert(v@[k] == y);
            } else {
                assert(v@[k + 1] == y);
            }
        }
        if y == x {
            assert(v@[i as int] == y);
        }
    }
}


fn clone_terms(v: &Vec<Term>) -> (r: Vec<Term>)
    ensures
        r@ == v@,
{
    let mut r: Vec<Term> = Vec::new();
    let mut i: usize = 0;
    while i < v.len()
        invariant
            i <= v@.len(),
            r@ == v@.take(i as int),
        decreases v@.len() - i,
    {
        r.push(v[i]);
        i += 1;
        assert(r@ =~= v@.take(i as int));
    }
    assert(v@.take(v@.len() as int) =~= v@);
    r
}

/// A copy of `n`.
pub fn clone_node(n: &Node) -> (r: Node)
    ensures
        r@ == n@,
{
    match n {
        Node::TyBool => Node::TyBool,
        Node::Bool(b) => Node::Bool(*b),
        Node::Not(a) => Node::Not(*a),
        Node::And(xs) => Node::And(clone_terms(xs)),
        Node::Or(xs) => Node::Or(clone_terms(xs)),
        Node::Imply(xs) => Node::Imply(clone_terms(xs)),
        Node::Eq(a, b) => Node::Eq(*a, *b),
        Node::Distinct(xs) => Node::Distinct(clone_terms(xs)),
        Node::Ite(a, b, c) => Node::Ite(*a, *b, *c),
        Node::Const(c, ty) => Node::Const(*c, *ty),
        Node::App(f, xs, ty) => Node::App(*f, clone_terms(xs), *ty),
    }
}

/// The negation of the simplified `u`: constants are flipped and double
/// negations removed.
pub fn simp_not(m: &mut Terms, u: Term) -> (r: Term)
    requires
        old(m).wf(),
        nf(old(m)@, u),
    ensures
        final(m).wf(),
        extends(old(m)@, final(m)@),
        nf(final(m)@, r),
        match old(m)@[u as int] {
            NodeV::Bool(b) => final(m)@[r as int] == NodeV::Bool(!b),
            NodeV::Not(v) => r == v,
            _ => final(m)@[r as int] == NodeV::Not(u),
        },
{
    proof { lemma_extends_refl(m@); }
    match m.view_term(u) {
        Node::Bool(b) => {
            let nb = !*b;
            m.mk(Node::Bool(nb))
        },
        Node::Not(v) => *v,
        _ => {
            let ghost ns0 = m@;
            let r = m.mk(Node::Not(u));
            proof { lemma_nf_extends(ns0, m@, u); }
            r
        },
    }
}

/// The equality of the simplified `a` and `b`: `true` when they are the same term.
pub fn simp_eq(m: &mut Terms, a: Term, b: Term) -> (r: Term)
    requires
        old(m).wf(),
        nf(old(m)@, a),
        nf(old(m)@, b),
    ensures
        final(m).wf(),
        extends(old(m)@, final(m)@),
        nf(final(m)@, r),
        a == b ==> final(m)@[r as int] == NodeV::Bool(true),
        a != b ==> final(m)@[r as int] == NodeV::Eq(a, b),
{
    if a == b {
        m.mk(Node::Bool(true))
    } else {
        let ghost ns0 = m@;
        let r = m.mk(Node::Eq(a, b));
        proof {
            lemma_nf_extends(ns0, m@, a);
            lemma_nf_extends(ns0, m@, b);
        }
        r
    }
}

/// `v` is the connective itself (a conjunction when `is_and`, else a disjunction).
pub open spec fn is_conn(v: NodeV, is_and: bool) -> bool {
    if is_and { v is And } else { v is Or }
}

/// `v` is the neutral element of the connective.
pub open spec fn is_neutral(v: NodeV, is_and: bool) -> bool {
    v == NodeV::Bool(is_and)
}

/// `x` may stand as an argument of a flattened connective.
pub open spec fn flat_arg(ns: Seq<NodeV>, is_and: bool, x: Term) -> bool {
    nf(ns, x) && !is_conn(ns[x as int], is_and) && !is_neutral(ns[x as int], is_and)
}

/// Arguments of a flattened connective: strictly increasing, each simplified,
/// neither the connective itself nor its neutral element.
pub open spec fn flat_args(ns: Seq<NodeV>, is_and: bool, xs: Seq<Term>) -> bool {
    strictly_sorted(xs) && forall|i: int| 0 <= i < xs.len() ==> flat_arg(ns, is_and, #[trigger] xs[i])
}

/// The leaves of the connective (a conjunction when `is_and`) over `xs`:
/// each term of `xs` below `bound`, except that an occurrence of the
/// connective itself gives the leaves of its own arguments (below it), and
/// the neutral element gives none.
pub open spec fn leaves(ns: Seq<NodeV>, is_and: bool, xs: Seq<Term>, bound: int) -> Set<Term>
    decreases bound, xs.len(),
{
    if xs.len() == 0 {
        Set::empty()
    } else {
        let x = xs.last();
        let rest = leaves(ns, is_and, xs.drop_last(), bound);
        if !(0 <= x < bound && x < ns.len()) {
            rest
        } else {
            match ns[x as int] {
                NodeV::And(ys) => if is_and { rest.union(leaves(ns, is_and, ys, x as int)) } else { rest.insert(x) },
                NodeV::Or(ys) => if !is_and { rest.union(leaves(ns, is_and, ys, x as int)) } else { rest.insert(x) },
                NodeV::Bool(b) => if b == is_and { rest } else { rest.insert(x) },
                _ => rest.insert(x),
            }
        }
    }
}

proof fn lemma_leaves_extends(ns1: Seq<NodeV>, ns2: Seq<NodeV>, is_and: bool, xs: Seq<Term>, b: int)
    requires
        extends(ns1, ns2),
        b <= ns1.len(),
    ensures
        leaves(ns1, is_and, xs, b) == leaves(ns2, is_and, xs, b),
    decreases b, xs.len(),
{
    if xs.len() > 0 {
        let x = xs.last();
        lemma_leaves_extends(ns1, ns2, is_and, xs.drop_last(), b);
        if 0 <= x < b && x < ns1.len() {
            assert(ns2[x as int] == ns1[x as int]);
            match ns1[x as int] {
                NodeV::And(ys) => lemma_leaves_extends(ns1, ns2, is_and, ys, x as int),
                NodeV::Or(ys) => lemma_leaves_extends(ns1, ns2, is_and, ys, x as int),
                _ => {},
            }
        }
    }
}

proof fn lemma_leaves_bound(ns: Seq<NodeV>, is_and: bool, xs: Seq<Term>, b1: int, b2: int)
    requires
        all_below(xs, b1),
        b1 <= b2,
        b1 <= ns.len(),
    ensures
        leaves(ns, is_and, xs, b1) == leaves(ns, is_and, xs, b2),
    decreases xs.len(),
{
    if xs.len() > 0 {
        let init = xs.drop_last();
        assert forall|i: int| 0 <= i < init.len() implies (#[trigger] init[i]) < b1 by {
            assert(init[i] == xs[i]);
        }
        assert(xs[xs.len() - 1] < b1);
        lemma_leaves_bound(ns, is_and, init, b1, b2);
    }
}

/// `r` is the connective over a set of leaves `lv`: its absorbing element
/// when some leaf is that element, else the connective over exactly the
/// leaves, strictly increasing.
pub open spec fn conn_exact(ns: Seq<NodeV>, is_and: bool, lv: Set<Term>, r: Term) -> bool {
    if exists|y: Term| #[trigger] lv.contains(y) && ns[y as int] == NodeV::Bool(!is_and) {
        ns[r as int] == NodeV::Bool(!is_and)
    } else {
        let args = conn_args(ns[r as int], is_and);
        &&& is_conn(ns[r as int], is_and)
        &&& strictly_sorted(args)
        &&& forall|y: Term| args.contains(y) <==> #[trigger] lv.contains(y)
    }
}

/// Add the arguments of the simplified `args` to `v`, looking through nested
/// occurrences of the connective and dropping its neutral element.
fn flatten_conn_rec(m: &Terms, is_and: bool, v: &mut Vec<Term>, args: &Vec<Term>, Ghost(bound): Ghost<int>)
    requires
        m.wf(),
        all_nf(m@, args@),
        all_below(args@, bound),
        flat_args(m@, is_and, old(v)@),
    ensures
        flat_args(m@, is_and, final(v)@),
        forall|y: Term| #[trigger] final(v)@.contains(y)
            <==> (old(v)@.contains(y) || leaves(m@, is_and, args@, bound).contains(y)),
    decreases bound,
{
    let mut i: usize = 0;
    while i < args.len()
        invariant
            m.wf(),
            all_nf(m@, args@),
            all_below(args@, bound),
            i <= args@.len(),
            flat_args(m@, is_and, v@),
            forall|y: Term| #[trigger] v@.contains(y)
                <==> (old(v)@.contains(y) || leaves(m@, is_and, args@.take(i as int), bound).contains(y)),
        decreases args@.len() - i,
    {
        let t = args[i];
        assert(nf(m@, t));
        let ghost v0 = v@;
        assert(args@.take(i as int + 1).drop_last() =~= args@.take(i as int));
        assert(args@.take(i as int + 1).last() == t);
        assert(t < bound && t < m@.len());
        match m.view_term(t) {
            Node::And(args2) if is_and => {
                assert(forall|j: int| 0 <= j < args2@.len() ==> #[trigger] args2@[j] < t && nf(m@, args2@[j]));
                flatten_conn_rec(m, is_and, v, args2, Ghost(t as int));
            },
            Node::Or(args2) if !is_and => {
                assert(forall|j: int| 0 <= j < args2@.len() ==> #[trigger] args2@[j] < t && nf(m@, args2@[j]));
                flatten_conn_rec(m, is_and, v, args2, Ghost(t as int));
            },
            Node::Bool(b) if *b == is_and => {},
            _ => {
                insert_sorted(v, t);
                assert forall|k: int| 0 <= k < v@.len() implies flat_arg(m@, is_and, #[trigger] v@[k]) by {
                    assert(v@.contains(v@[k]));
                    if v@[k] != t {
                        let j = choose|j: int| 0 <= j < v0.len() && v0[j] == v@[k];
                        assert(flat_arg(m@, is_and, v0[j]));
                    }
                }
            },
        }
        i += 1;
    }
    assert(args@.take(args@.len() as int) =~= args@);
}

/// The flattened connective over the simplified `args`, or its absorbing
/// element when that occurs among them.
pub fn simp_conn(m: &mut Terms, is_and: bool, args: &Vec<Term>) -> (r: Term)
    requires
        old(m).wf(),
        all_nf(old(m)@, args@),
        all_below(args@, old(m)@.len() as int),
    ensures
        final(m).wf(),
        extends(old(m)@, final(m)@),
        nf(final(m)@, r),
        conn_exact(final(m)@, is_and, leaves(final(m)@, is_and, args@, final(m)@.len() as int), r),
{
    let ghost lv = leaves(m@, is_and, args@, m@.len() as int);
    let mut v: Vec<Term> = Vec::new();
    flatten_conn_rec(m, is_and, &mut v, args, Ghost(m@.len() as int));
    let mut i: usize = 0;
    while i < v.len()
        invariant
            m.wf(),
            m@ == old(m)@,
            flat_args(m@, is_and, v@),
            lv == leaves(old(m)@, is_and, args@, old(m)@.len() as int),
            forall|y: Term| #[trigger] v@.contains(y) <==> lv.contains(y),
            all_below(args@, old(m)@.len() as int),
            i <= v@.len(),
            forall|k: int| 0 <= k < i ==> m@[(#[trigger] v@[k]) as int] != NodeV::Bool(!is_and),
        decreases v@.len() - i,
    {
        assert(flat_arg(m@, is_and, v@[i as int]));
        if let Node::Bool(b) = m.view_term(v[i]) {
            if *b != is_and {
                let ghost ns0 = m@;
                let r = m.mk(Node::Bool(!is_and));
                proof {
                    assert(v@.contains(v@[i as int]));
                    assert(lv.contains(v@[i as int]));
                    assert(m@[v@[i as int] as int] == NodeV::Bool(!is_and));
                    lemma_leaves_extends(ns0, m@, is_and, args@, ns0.len() as int);
                    lemma_leaves_bound(m@, is_and, args@, ns0.len() as int, m@.len() as int);
                }
                return r;
            }
        }
        i += 1;
    }
    let ghost ns0 = m@;
    let ghost xs = v@;
    let r = if is_and { m.mk(Node::And(v)) } else { m.mk(Node::Or(v)) };
    proof {
        assert forall|k: int| 0 <= k < xs.len() implies #[trigger] xs[k] < r && nf(m@, xs[k]) by {
            assert(flat_arg(ns0, is_and, xs[k]));
            lemma_nf_extends(ns0, m@, xs[k]);
        }
        lemma_flat_args_extends(ns0, m@, is_and, xs);
        assert(conn_args(m@[r as int], is_and) == xs);
        lemma_leaves_extends(ns0, m@, is_and, args@, ns0.len() as int);
        lemma_leaves_bound(m@, is_and, args@, ns0.len() as int, m@.len() as int);
        assert forall|y: Term| #[trigger] lv.contains(y) implies m@[y as int] != NodeV::Bool(!is_and) by {
            assert(xs.contains(y));
            let k = choose|k: int| 0 <= k < xs.len() && xs[k] == y;
            assert(ns0[xs[k] as int] != NodeV::Bool(!is_and));
            assert(flat_arg(ns0, is_and, xs[k]));
        }
    }
    r
}


/// `not (xs[i] = xs[j])` for every `i < j`, in the order of `i` then `j`.
fn disequalities(m: &mut Terms, xs: &Vec<Term>) -> (r: Vec<Term>)
    requires
        old(m).wf(),
        all_nf(old(m)@, xs@),
    ensures
        final(m).wf(),
        extends(old(m)@, final(m)@),
        all_nf(final(m)@, r@),
        all_below(r@, final(m)@.len() as int),
        xs@.len() == 2 ==> r@.len() == 1 && diseq_of(final(m)@, xs@[0], xs@[1], r@[0]),
        xs@.len() > 2 ==> r@.len() > 0,
        diseqs_of(final(m)@, xs@, r@),
{
    let ghost ns0 = m@;
    proof { lemma_extends_refl(m@); }
    let mut r: Vec<Term> = Vec::new();
    let mut i: usize = 0;
    while i < xs.len()
        invariant
            m.wf(),
            extends(ns0, m@),
            all_nf(ns0, xs@),
            i <= xs@.len(),
            all_nf(m@, r@),
            i >= 1 && xs@.len() >= 2 ==> r@.len() > 0,
            xs@.len() == 2 ==> r@.len() == (if i >= 1 { 1int } else { 0int }),
            xs@.len() == 2 && r@.len() == 1 ==> r@[0] < m@.len() && diseq_of(m@, xs@[0], xs@[1], r@[0]),
            all_below(r@, m@.len() as int),
            forall|k: int| 0 <= k < r@.len() ==> from_pair(m@, xs@, #[trigger] r@[k]),
            forall|a: int, b: int| 0 <= a < i && a < b < xs@.len() ==> #[trigger] pair_in(m@, xs@, r@, a, b),
        decreases xs@.len() - i,
    {
        let mut j: usize = i + 1;
        while j < xs.len()
            invariant
                m.wf(),
                extends(ns0, m@),
                all_nf(ns0, xs@),
                i < xs@.len(),
                i + 1 <= j <= xs@.len(),
                all_nf(m@, r@),
                j > i + 1 && xs@.len() >= 2 ==> r@.len() > 0,
                i >= 1 && xs@.len() >= 2 ==> r@.len() > 0,
                xs@.len() == 2 ==> r@.len() == (if i >= 1 || j > i + 1 { 1int } else { 0int }),
                xs@.len() == 2 && r@.len() == 1 ==> r@[0] < m@.len() && diseq_of(m@, xs@[0], xs@[1], r@[0]),
                all_below(r@, m@.len() as int),
                forall|k: int| 0 <= k < r@.len() ==> from_pair(m@, xs@, #[trigger] r@[k]),
                forall|a: int, b: int| 0 <= a < i && a < b < xs@.len() ==> #[trigger] pair_in(m@, xs@, r@, a, b),
                forall|b: int| i < b < j ==> #[trigger] pair_in(m@, xs@, r@, i as int, b),
            decreases xs@.len() - j,
        {
            let ghost ns1 = m@;
            proof {
                assert(nf(ns0, xs@[i as int]));
                assert(nf(ns0, xs@[j as int]));
                lemma_nf_extends(ns0, m@, xs@[i as int]);
                lemma_nf_extends(ns0, m@, xs@[j as int]);
            }
            let e = simp_eq(m, xs[i], xs[j]);
            let d = simp_not(m, e);
            let ghost r0 = r@;
            proof {
                lemma_extends_trans(ns0, ns1, m@);
                lemma_all_nf_extends(ns1, m@, r@);
                assert(diseq_of(m@, xs@[i as int], xs@[j as int], d));
                assert forall|k: int| 0 <= k < r0.len() implies from_pair(m@, xs@, #[trigger] r0[k]) by {
                    assert(from_pair(ns1, xs@, r0[k]));
                    let (a, b) = choose|a: int, b: int| 0 <= a < b < xs@.len() && #[trigger] diseq_of(ns1, xs@[a], xs@[b], r0[k]);
                    lemma_diseq_extends(ns1, m@, xs@[a], xs@[b], r0[k]);
                }
                assert forall|a: int, b: int| 0 <= a < b < xs@.len() && pair_in(ns1, xs@, r0, a, b)
                    implies #[trigger] pair_in(m@, xs@, r0, a, b) by {
                    let k = choose|k: int| 0 <= k < r0.len() && diseq_of(ns1, xs@[a], xs@[b], #[trigger] r0[k]);
                    lemma_diseq_extends(ns1, m@, xs@[a], xs@[b], r0[k]);
                }
            }
            r.push(d);
            proof {
                assert forall|k: int| 0 <= k < r@.len() implies #[trigger] nf(m@, r@[k]) by {
                    if k < r@.len() - 1 {
                        assert(nf(m@, r@[k]));
                    }
                }
                assert forall|k: int| 0 <= k < r@.len() implies #[trigger] r@[k] < m@.len() by {
                    assert(nf(m@, r@[k]));
                }
                assert forall|k: int| 0 <= k < r@.len() implies from_pair(m@, xs@, #[trigger] r@[k]) by {
                    if k < r0.len() {
                        assert(r@[k] == r0[k]);
                        assert(from_pair(m@, xs@, r0[k]));
                    } else {
                        assert(diseq_of(m@, xs@[i as int], xs@[j as int], r@[k]));
                    }
                }
                assert forall|a: int, b: int| 0 <= a < i + 1 && a < b < xs@.len() && (a < i || b <= j)
                    implies #[trigger] pair_in(m@, xs@, r@, a, b) by {
                    if a == i && b == j {
                        assert(diseq_of(m@, xs@[a], xs@[b], r@[r0.len() as int]));
                    } else {
                        assert(pair_in(ns1, xs@, r0, a, b));
                        assert(pair_in(m@, xs@, r0, a, b));
                        let k = choose|k: int| 0 <= k < r0.len() && diseq_of(m@, xs@[a], xs@[b], #[trigger] r0[k]);
                        assert(r@[k] == r0[k]);
                    }
                }
            }
            j += 1;
        }
        i += 1;
    }
    r
}

/// Every key that `m2` has and `m1` has not is below `b`.
pub open spec fn new_keys_below(m1: Map<Term, Term>, m2: Map<Term, Term>, b: int) -> bool {
    forall|k: Term| #[trigger] m2.contains_key(k) && !m1.contains_key(k) ==> k < b
}

/// `r` is the negation of the simplified `a2`.
pub open spec fn not_of(ns: Seq<NodeV>, a2: Term, r: Term) -> bool {
    match ns[a2 as int] {
        NodeV::Bool(b) => ns[r as int] == NodeV::Bool(!b),
        NodeV::Not(x) => r == x,
        _ => ns[r as int] == NodeV::Not(a2),
    }
}

/// `r` is the equality of the simplified `a2` and `b2`.
pub open spec fn eq_of(ns: Seq<NodeV>, a2: Term, b2: Term, r: Term) -> bool {
    if a2 == b2 {
        ns[r as int] == NodeV::Bool(true)
    } else {
        ns[r as int] == NodeV::Eq(a2, b2)
    }
}

/// `r` is the if-then-else of the simplified `a2`, `b2`, `c2`.
pub open spec fn ite_of(ns: Seq<NodeV>, a2: Term, b2: Term, c2: Term, r: Term) -> bool {
    if ns[a2 as int] == NodeV::Bool(true) {
        r == b2
    } else if ns[a2 as int] == NodeV::Bool(false) {
        r == c2
    } else if b2 == c2 {
        r == b2
    } else {
        ns[r as int] == NodeV::Ite(a2, b2, c2)
    }
}

/// The arguments of a conjunction (`is_and`) or a disjunction.
pub open spec fn conn_args(v: NodeV, is_and: bool) -> Seq<Term> {
    if is_and { v->And_0 } else { v->Or_0 }
}

proof fn lemma_not_of_extends(ns1: Seq<NodeV>, ns2: Seq<NodeV>, a2: Term, r: Term)
    requires
        extends(ns1, ns2),
        a2 < ns1.len(),
        r < ns1.len(),
        not_of(ns1, a2, r),
    ensures
        not_of(ns2, a2, r),
{
    assert(ns2[a2 as int] == ns1[a2 as int]);
    assert(ns2[r as int] == ns1[r as int]);
}

/// `zs` are the disjuncts an implication over the simplified `ys` becomes:
/// the negations of all but the last, and the last.
pub open spec fn implied_args(ns: Seq<NodeV>, ys: Seq<Term>, zs: Seq<Term>) -> bool {
    &&& ys.len() >= 1
    &&& zs.len() == ys.len()
    &&& forall|i: int| 0 <= i < ys.len() - 1 ==> not_of(ns, ys[i], #[trigger] zs[i])
    &&& zs[ys.len() - 1] == ys[ys.len() - 1]
    &&& all_below(zs, ns.len() as int)
}

/// The cached simplified forms of `xs`.
pub open spec fn cached(map: Map<Term, Term>, xs: Seq<Term>) -> Seq<Term> {
    xs.map(|i: int, x: Term| map[x])
}

/// `d` is the disequality of the simplified `a2` and `b2`.
pub open spec fn diseq_of(ns: Seq<NodeV>, a2: Term, b2: Term, d: Term) -> bool {
    if a2 == b2 {
        ns[d as int] == NodeV::Bool(false)
    } else {
        ns[d as int] is Not && ns[ns[d as int]->Not_0 as int] == NodeV::Eq(a2, b2)
    }
}

/// Some term of `ds` is the disequality of `xs[i]` and `xs[j]`.
pub open spec fn pair_in(ns: Seq<NodeV>, xs: Seq<Term>, ds: Seq<Term>, i: int, j: int) -> bool {
    exists|k: int| 0 <= k < ds.len() && diseq_of(ns, xs[i], xs[j], #[trigger] ds[k])
}

/// `d` is the disequality of two terms of `xs` at positions `i < j`.
pub open spec fn from_pair(ns: Seq<NodeV>, xs: Seq<Term>, d: Term) -> bool {
    exists|i: int, j: int| 0 <= i < j < xs.len() && #[trigger] diseq_of(ns, xs[i], xs[j], d)
}

/// `ds` are exactly the pairwise disequalities of `xs`.
pub open spec fn diseqs_of(ns: Seq<NodeV>, xs: Seq<Term>, ds: Seq<Term>) -> bool {
    &&& all_below(ds, ns.len() as int)
    &&& forall|k: int| 0 <= k < ds.len() ==> from_pair(ns, xs, #[trigger] ds[k])
    &&& forall|i: int, j: int| 0 <= i < j < xs.len() ==> #[trigger] pair_in(ns, xs, ds, i, j)
}

proof fn lemma_diseq_extends(ns1: Seq<NodeV>, ns2: Seq<NodeV>, a: Term, b: Term, d: Term)
    requires
        extends(ns1, ns2),
        crate::terms::arena_wf(ns1),
        d < ns1.len(),
        diseq_of(ns1, a, b, d),
    ensures
        diseq_of(ns2, a, b, d),
{
    assert(ns2[d as int] == ns1[d as int]);
    if a != b {
        assert(node_below(ns1[d as int], d as int));
        assert(ns2[ns1[d as int]->Not_0 as int] == ns1[ns1[d as int]->Not_0 as int]);
    }
}

proof fn lemma_diseqs_of_extends(ns1: Seq<NodeV>, ns2: Seq<NodeV>, xs: Seq<Term>, ds: Seq<Term>)
    requires
        extends(ns1, ns2),
        crate::terms::arena_wf(ns1),
        diseqs_of(ns1, xs, ds),
    ensures
        diseqs_of(ns2, xs, ds),
{
    assert forall|k: int| 0 <= k < ds.len() implies from_pair(ns2, xs, #[trigger] ds[k]) by {
        assert(from_pair(ns1, xs, ds[k]));
        let (i, j) = choose|i: int, j: int| 0 <= i < j < xs.len() && #[trigger] diseq_of(ns1, xs[i], xs[j], ds[k]);
        lemma_diseq_extends(ns1, ns2, xs[i], xs[j], ds[k]);
    }
    assert forall|i: int, j: int| 0 <= i < j < xs.len() implies #[trigger] pair_in(ns2, xs, ds, i, j) by {
        assert(pair_in(ns1, xs, ds, i, j));
        let k = choose|k: int| 0 <= k < ds.len() && diseq_of(ns1, xs[i], xs[j], #[trigger] ds[k]);
        lemma_diseq_extends(ns1, ns2, xs[i], xs[j], ds[k]);
    }
}

/// `r` is what the rewrite rules make of a term of shape `v`, given the
/// cached simplified forms of its subterms.
pub open spec fn rewrites(v: NodeV, ns: Seq<NodeV>, map: Map<Term, Term>, t: Term, r: Term) -> bool {
    match v {
        NodeV::TyBool | NodeV::Bool(_) | NodeV::Const(_, _) => r == t,
        NodeV::Not(a) => not_of(ns, map[a], r),
        NodeV::Eq(a, b) => eq_of(ns, map[a], map[b], r),
        NodeV::Ite(a, b, c) => ite_of(ns, map[a], map[b], map[c], r),
        NodeV::App(f, xs, ty) => ns[r as int] == NodeV::App(map[f], cached(map, xs), ty),
        NodeV::And(xs) => conn_exact(ns, true, leaves(ns, true, cached(map, xs), ns.len() as int), r),
        NodeV::Or(xs) => conn_exact(ns, false, leaves(ns, false, cached(map, xs), ns.len() as int), r),
        NodeV::Distinct(xs) => if xs.len() < 2 {
            ns[r as int] == NodeV::Bool(true)
        } else if xs.len() == 2 {
            diseq_of(ns, map[xs[0]], map[xs[1]], r)
        } else {
            exists|ds: Seq<Term>| #[trigger] diseqs_of(ns, cached(map, xs), ds)
                && conn_exact(ns, true, leaves(ns, true, ds, ns.len() as int), r)
        },
        NodeV::Imply(xs) => if xs.len() == 0 {
            ns[r as int] == NodeV::Bool(true)
        } else {
            exists|zs: Seq<Term>| #[trigger] implied_args(ns, cached(map, xs), zs)
                && conn_exact(ns, false, leaves(ns, false, zs, ns.len() as int), r)
        },
    }
}

proof fn lemma_flat_args_extends(ns1: Seq<NodeV>, ns2: Seq<NodeV>, is_and: bool, xs: Seq<Term>)
    requires
        extends(ns1, ns2),
        flat_args(ns1, is_and, xs),
    ensures
        flat_args(ns2, is_and, xs),
{
    assert forall|i: int| 0 <= i < xs.len() implies flat_arg(ns2, is_and, #[trigger] xs[i]) by {
        assert(flat_arg(ns1, is_and, xs[i]));
        lemma_nf_extends(ns1, ns2, xs[i]);
    }
}

/// `k` is a direct subterm of a term of shape `v` whose cached form
/// `rewrites` reads.
pub open spec fn reads(v: NodeV, k: Term) -> bool {
    match v {
        NodeV::Not(a) => k == a,
        NodeV::Eq(a, b) => k == a || k == b,
        NodeV::Ite(a, b, c) => k == a || k == b || k == c,
        NodeV::App(f, xs, _) => k == f || xs.contains(k),
        NodeV::And(xs) => xs.contains(k),
        NodeV::Or(xs) => xs.contains(k),
        NodeV::Distinct(xs) => xs.contains(k),
        NodeV::Imply(xs) => xs.contains(k),
        _ => false,
    }
}

/// Caching a form for a term that `rewrites` does not read keeps it.
pub proof fn rewrites_keep(v: NodeV, ns: Seq<NodeV>, m1: Map<Term, Term>, t: Term, r: Term, k: Term, w: Term)
    requires
        rewrites(v, ns, m1, t, r),
        !reads(v, k),
    ensures
        rewrites(v, ns, m1.insert(k, w), t, r),
{
    let m2 = m1.insert(k, w);
    match v {
        NodeV::App(f, xs, _) => {
            assert forall|i: int| 0 <= i < xs.len() implies #[trigger] cached(m2, xs)[i] == cached(m1, xs)[i] by {
                assert(xs.contains(xs[i]));
            }
            assert(cached(m2, xs) =~= cached(m1, xs));
        },
        NodeV::And(xs) => {
            assert forall|i: int| 0 <= i < xs.len() implies #[trigger] cached(m2, xs)[i] == cached(m1, xs)[i] by {
                assert(xs.contains(xs[i]));
            }
            assert(cached(m2, xs) =~= cached(m1, xs));
        },
        NodeV::Or(xs) => {
            assert forall|i: int| 0 <= i < xs.len() implies #[trigger] cached(m2, xs)[i] == cached(m1, xs)[i] by {
                assert(xs.contains(xs[i]));
            }
            assert(cached(m2, xs) =~= cached(m1, xs));
        },
        NodeV::Distinct(xs) => {
            if xs.len() == 2 {
                assert(xs.contains(xs[0]) && xs.contains(xs[1]));
            }
            assert forall|i: int| 0 <= i < xs.len() implies #[trigger] cached(m2, xs)[i] == cached(m1, xs)[i] by {
                assert(xs.contains(xs[i]));
            }
            assert(cached(m2, xs) =~= cached(m1, xs));
        },
        NodeV::Imply(xs) => {
            assert forall|i: int| 0 <= i < xs.len() implies #[trigger] cached(m2, xs)[i] == cached(m1, xs)[i] by {
                assert(xs.contains(xs[i]));
            }
            assert(cached(m2, xs) =~= cached(m1, xs));
        },
        _ => {},
    }
}

/// The memo table of the simplifier: the simplified form of each term met.
/// It lives as long as the terms it was filled on, so that a term simplified
/// again gets the same form back.
pub struct Simplifier {
    pub map: HashMap<Term, Term>,
}

/// `m2` keeps every entry of `m1`.
pub open spec fn memo_grows(m1: Map<Term, Term>, m2: Map<Term, Term>) -> bool {
    forall|k: Term| #[trigger] m1.contains_key(k) ==> m2.contains_key(k) && m2[k] == m1[k]
}

impl Simplifier {
    pub open spec fn inv(&self, ns: Seq<NodeV>) -> bool {
        memo_ok(self.map@, ns)
    }

    pub fn new() -> (r: Simplifier)
        ensures
            r.map@ == Map::<Term, Term>::empty(),
    {
        Simplifier { map: HashMap::new() }
    }

    /// Record `u` as the simplified form of `t`, not cached yet.
    fn close_memo(&mut self, m: &Terms, t: Term, u: Term) -> (r: Term)
        requires
            old(self).inv(m@),
            nf(m@, u),
            t < m@.len(),
            !old(self).map@.contains_key(t),
        ensures
            final(self).inv(m@),
            final(self).map@ == old(self).map@.insert(t, u),
            r == u,
    {
        self.map.insert(t, u);
        u
    }

    /// Simplify each of `xs`, all below `bound`.
    fn simplify_all(&mut self, m: &mut Terms, xs: &Vec<Term>, Ghost(bound): Ghost<Term>) -> (r: Vec<Term>)
        requires
            old(m).wf(),
            old(self).inv(old(m)@),
            forall|i: int| 0 <= i < xs@.len() ==> #[trigger] xs@[i] < bound && wff(old(m)@, xs@[i]),
        ensures
            final(m).wf(),
            extends(old(m)@, final(m)@),
            final(self).inv(final(m)@),
            memo_grows(old(self).map@, final(self).map@),
            r@.len() == xs@.len(),
            all_nf(final(m)@, r@),
            all_below(r@, final(m)@.len() as int),
            forall|i: int| 0 <= i < xs@.len() ==> #[trigger] final(self).map@.contains_key(xs@[i])
                && final(self).map@[xs@[i]] == r@[i],
            new_keys_below(old(self).map@, final(self).map@, bound as int),
        decreases bound, 0nat,
    {
        proof { lemma_extends_refl(m@); }
        let mut r: Vec<Term> = Vec::new();
        let mut i: usize = 0;
        while i < xs.len()
            invariant
                m.wf(),
                extends(old(m)@, m@),
                self.inv(m@),
                memo_grows(old(self).map@, self.map@),
                new_keys_below(old(self).map@, self.map@, bound as int),
                forall|j: int| 0 <= j < xs@.len() ==> #[trigger] xs@[j] < bound && wff(old(m)@, xs@[j]),
                i <= xs@.len(),
                r@.len() == i,
                all_nf(m@, r@),
                forall|j: int| 0 <= j < i ==> #[trigger] self.map@.contains_key(xs@[j])
                    && self.map@[xs@[j]] == r@[j],
            decreases xs@.len() - i,
        {
            let ghost ns0 = m@;
            let ghost map0 = self.map@;
            assert(xs@[i as int] < bound && wff(old(m)@, xs@[i as int]));
            proof { lemma_wff_extends(old(m)@, m@, xs@[i as int]); }
            let u = self.simplify_rec(m, xs[i]);
            proof {
                lemma_extends_trans(old(m)@, ns0, m@);
                lemma_all_nf_extends(ns0, m@, r@);
            }
            r.push(u);
            proof {
                assert forall|j: int| 0 <= j < r@.len() implies #[trigger] nf(m@, r@[j]) by {
                    if j < i {
                        assert(nf(m@, r@[j]));
                    }
                }
                assert forall|j: int| 0 <= j < i + 1 implies #[trigger] self.map@.contains_key(xs@[j])
                    && self.map@[xs@[j]] == r@[j] by {
                    if j < i {
                        assert(map0.contains_key(xs@[j]));
                    }
                }
            }
            i += 1;
        }
        proof {
            assert forall|j: int| 0 <= j < r@.len() implies #[trigger] r@[j] < m@.len() by {
                assert(nf(m@, r@[j]));
            }
        }
        r
    }

    /// The simplified form of `t`, from the memo table when it is there;
    /// otherwise what the rewrite rules make of `t` from the simplified forms
    /// of its subterms, which are simplified (and cached) first.
    #[verifier::rlimit(60)]
    pub fn simplify_rec(&mut self, m: &mut Terms, t: Term) -> (r: Term)
        requires
            old(m).wf(),
            wff(old(m)@, t),
            old(self).inv(old(m)@),
        ensures
            final(m).wf(),
            extends(old(m)@, final(m)@),
            final(self).inv(final(m)@),
            memo_grows(old(self).map@, final(self).map@),
            final(self).map@.contains_key(t),
            final(self).map@[t] == r,
            nf(final(m)@, r),
            old(self).map@.contains_key(t) ==> final(m)@ == old(m)@ && final(self).map@ == old(self).map@,
            new_keys_below(old(self).map@, final(self).map@, t + 1),
            !old(self).map@.contains_key(t) ==> rewrites(old(m)@[t as int], final(m)@, final(self).map@, t, r),
        decreases t, 1nat,
    {
        proof { lemma_extends_refl(m@); }
        if let Some(u) = self.map.get(&t) {
            return *u;
        }
        let ghost ns0 = m@;
        let node = clone_node(m.view_term(t));
        assert(node_below(node@, t as int)) by {
            assert(crate::terms::arena_wf(m@));
        }
        let u = match node {
            Node::TyBool | Node::Bool(_) | Node::Const(_, _) => t,
            Node::Not(a) => {
                let a2 = self.simplify_rec(m, a);
                let ghost ns1 = m@;
                let r = simp_not(m, a2);
                proof { lemma_memo_extends(self.map@, ns1, m@); }
                assert(self.map@.insert(t, r)[a] == a2);
                assert(not_of(m@, a2, r));
                r
            },
            Node::And(xs) => {
                let ys = self.simplify_all(m, &xs, Ghost(t));
                let ghost ns1 = m@;
                let r = simp_conn(m, true, &ys);
                proof {
                    lemma_memo_extends(self.map@, ns1, m@);
                    assert forall|i: int| 0 <= i < xs@.len() implies #[trigger] cached(self.map@.insert(t, r), xs@)[i] == ys@[i] by {
                        assert(xs@[i] < t);
                        assert(self.map@.contains_key(xs@[i]));
                    }
                    assert(ys@ =~= cached(self.map@.insert(t, r), xs@));
                }
                r
            },
            Node::Or(xs) => {
                let ys = self.simplify_all(m, &xs, Ghost(t));
                let ghost ns1 = m@;
                let r = simp_conn(m, false, &ys);
                proof {
                    lemma_memo_extends(self.map@, ns1, m@);
                    assert forall|i: int| 0 <= i < xs@.len() implies #[trigger] cached(self.map@.insert(t, r), xs@)[i] == ys@[i] by {
                        assert(xs@[i] < t);
                        assert(self.map@.contains_key(xs@[i]));
                    }
                    assert(ys@ =~= cached(self.map@.insert(t, r), xs@));
                }
                r
            },
            Node::Imply(xs) => {
                if xs.len() == 0 {
                    let r = m.mk(Node::Bool(true));
                    proof { lemma_memo_extends(self.map@, ns0, m@); }
                    r
                } else {
                    let ys = self.simplify_all(m, &xs, Ghost(t));
                    let ghost ys0 = ys@;
                    let mut zs: Vec<Term> = Vec::new();
                    let mut i: usize = 0;
                    let ghost ns1 = m@;
                    proof { lemma_extends_refl(m@); }
                    while i < ys.len()
                        invariant
                            m.wf(),
                            extends(ns1, m@),
                            ys@ == ys0,
                            all_nf(ns1, ys0),
                            i <= ys@.len(),
                            zs@.len() == i,
                            all_nf(m@, zs@),
                            forall|j: int| 0 <= j < i && j + 1 < ys0.len() ==> not_of(m@, ys0[j], #[trigger] zs@[j]),
                            forall|j: int| 0 <= j < i && j + 1 == ys0.len() ==> #[trigger] zs@[j] == ys0[j],
                        decreases ys@.len() - i,
                    {
                        let ghost ns2 = m@;
                        proof {
                            assert(nf(ns1, ys@[i as int]));
                            lemma_nf_extends(ns1, m@, ys@[i as int]);
                        }
                        let z = if i + 1 < ys.len() { simp_not(m, ys[i]) } else { ys[i] };
                        proof {
                            lemma_extends_trans(ns1, ns2, m@);
                            lemma_all_nf_extends(ns2, m@, zs@);
                            lemma_nf_extends(ns2, m@, ys@[i as int]);
                            assert forall|j: int| 0 <= j < i && j + 1 < ys0.len() implies not_of(m@, ys0[j], #[trigger] zs@[j]) by {
                                assert(nf(ns1, ys0[j]));
                                assert(nf(ns2, zs@[j]));
                                lemma_not_of_extends(ns2, m@, ys0[j], zs@[j]);
                            }
                        }
                        zs.push(z);
                        proof {
                            assert forall|j: int| 0 <= j < zs@.len() implies #[trigger] nf(m@, zs@[j]) by {
                                if j < i {
                                    assert(nf(m@, zs@[j]));
                                }
                            }
                        }
                        i += 1;
                    }
                    proof {
                        assert forall|j: int| 0 <= j < zs@.len() implies #[trigger] zs@[j] < m@.len() by {
                            assert(nf(m@, zs@[j]));
                        }
                    }
                    let ghost ns3 = m@;
                    let ghost zs0 = zs@;
                    let r = simp_conn(m, false, &zs);
                    proof {
                        lemma_memo_extends(self.map@, ns1, m@);
                        assert forall|j: int| 0 <= j < xs@.len() implies #[trigger] cached(self.map@.insert(t, r), xs@)[j] == ys0[j] by {
                            assert(xs@[j] < t);
                            assert(self.map@.contains_key(xs@[j]));
                        }
                        assert(ys0 =~= cached(self.map@.insert(t, r), xs@));
                        assert forall|j: int| 0 <= j < ys0.len() - 1 implies not_of(m@, ys0[j], #[trigger] zs0[j]) by {
                            assert(nf(ns1, ys0[j]));
                            assert(nf(ns3, zs0[j]));
                            lemma_not_of_extends(ns3, m@, ys0[j], zs0[j]);
                        }
                        assert(zs0[ys0.len() - 1] == ys0[ys0.len() - 1]);
                        assert(implied_args(m@, cached(self.map@.insert(t, r), xs@), zs0));
                    }
                    r
                }
            },
            Node::Eq(a, b) => {
                let a2 = self.simplify_rec(m, a);
                let ghost ns1 = m@;
                proof { lemma_wff_extends(ns0, m@, b); }
                let b2 = self.simplify_rec(m, b);
                proof { lemma_nf_extends(ns1, m@, a2); }
                let ghost ns2 = m@;
                let r = simp_eq(m, a2, b2);
                proof { lemma_memo_extends(self.map@, ns2, m@); }
                assert(self.map@.insert(t, r)[a] == a2);
                assert(self.map@.insert(t, r)[b] == b2);
                assert(eq_of(m@, a2, b2, r));
                r
            },
            Node::Distinct(xs) => {
                if xs.len() < 2 {
                    let r = m.mk(Node::Bool(true));
                    proof { lemma_memo_extends(self.map@, ns0, m@); }
                    r
                } else {
                    let ys = self.simplify_all(m, &xs, Ghost(t));
                    let ghost ns1 = m@;
                    let conj = disequalities(m, &ys);
                    let ghost ns2 = m@;
                    let ghost ds = conj@;
                    let r = if ys.len() == 2 {
                        assert(nf(m@, conj@[0]));
                        conj[0]
                    } else {
                        simp_conn(m, true, &conj)
                    };
                    proof {
                        lemma_memo_extends(self.map@, ns1, m@);
                        assert(xs@[0] < t && xs@[1] < t);
                        assert(self.map@.contains_key(xs@[0]) && self.map@.contains_key(xs@[1]));
                        assert(self.map@.insert(t, r)[xs@[0]] == ys@[0]);
                        assert(self.map@.insert(t, r)[xs@[1]] == ys@[1]);
                        if xs@.len() > 2 {
                            assert forall|i: int| 0 <= i < xs@.len() implies #[trigger] cached(self.map@.insert(t, r), xs@)[i] == ys@[i] by {
                                assert(xs@[i] < t);
                                assert(self.map@.contains_key(xs@[i]));
                            }
                            assert(ys@ =~= cached(self.map@.insert(t, r), xs@));
                            lemma_diseqs_of_extends(ns2, m@, ys@, ds);
                            assert(diseqs_of(m@, cached(self.map@.insert(t, r), xs@), ds));
                        }
                    }
                    r
                }
            },
            Node::Ite(a, b, c) => {
                let a2 = self.simplify_rec(m, a);
                let ghost ns1 = m@;
                proof { lemma_wff_extends(ns0, m@, b); }
                let b2 = self.simplify_rec(m, b);
                let ghost ns2 = m@;
                proof { lemma_wff_extends(ns0, m@, c); }
                let c2 = self.simplify_rec(m, c);
                proof {
                    lemma_nf_extends(ns1, m@, a2);
                    lemma_nf_extends(ns2, m@, b2);
                }
                assert(self.map@[a] == a2 && self.map@[b] == b2 && self.map@[c] == c2);
                let r = match m.view_term(a2) {
                    Node::Bool(true) => b2,
                    Node::Bool(false) => c2,
                    _ => {
                        if b2 == c2 {
                            b2
                        } else {
                            let ghost ns3 = m@;
                            let r = m.mk(Node::Ite(a2, b2, c2));
                            proof {
                                lemma_memo_extends(self.map@, ns3, m@);
                                lemma_nf_extends(ns3, m@, a2);
                                lemma_nf_extends(ns3, m@, b2);
                                lemma_nf_extends(ns3, m@, c2);
                            }
                            r
                        }
                    },
                };
                assert(ite_of(m@, a2, b2, c2, r));
                assert(self.map@.insert(t, r)[a] == a2 && self.map@.insert(t, r)[b] == b2 && self.map@.insert(t, r)[c] == c2);
                r
            },
            Node::App(f, xs, ty) => {
                let f2 = self.simplify_rec(m, f);
                let ghost ns1 = m@;
                proof {
                    assert forall|i: int| 0 <= i < xs@.len() implies #[trigger] xs@[i] < t && wff(m@, xs@[i]) by {
                        assert(xs@[i] < t && wff(ns0, xs@[i]));
                        lemma_wff_extends(ns0, m@, xs@[i]);
                    }
                }
                let ys = self.simplify_all(m, &xs, Ghost(t));
                proof { lemma_nf_extends(ns1, m@, f2); }
                let ghost ns2 = m@;
                let ghost ys_v = ys@;
                let r = m.mk(Node::App(f2, ys, ty));
                proof {
                    lemma_memo_extends(self.map@, ns2, m@);
                    lemma_nf_extends(ns2, m@, f2);
                    assert forall|j: int| 0 <= j < m@[r as int]->App_1.len()
                        implies #[trigger] m@[r as int]->App_1[j] < r && nf(m@, m@[r as int]->App_1[j]) by {
                        lemma_nf_extends(ns2, m@, m@[r as int]->App_1[j]);
                    }
                    assert forall|i: int| 0 <= i < xs@.len() implies #[trigger] cached(self.map@.insert(t, r), xs@)[i] == ys_v[i] by {
                        assert(xs@[i] < t);
                        assert(self.map@.contains_key(xs@[i]));
                    }
                    assert(ys_v =~= cached(self.map@.insert(t, r), xs@));
                    assert(self.map@.insert(t, r)[f] == f2);
                }
                r
            },
        };
        assert(rewrites(node@, m@, self.map@.insert(t, u), t, u));
        self.close_memo(m, t, u)
    }
}

} // verus!
