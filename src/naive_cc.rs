//! A reference congruence closure, recomputed from scratch at each check.
//!
//! Asserted merges are kept on a trail with backtracking levels. A check
//! labels every term with a representative of its class: the asserted
//! merges hold, applications with congruent heads and arguments share a
//! class, and an equality whose sides share a class is in the class of
//! `true`. A check fails when `true` and `false` end in one class.

use vstd::prelude::*;
use crate::terms::{Term, Terms, Node, NodeV};
use crate::lits::Lit;

verus! {

/// The distinguished terms the congruence closure knows about.
#[derive(Clone, Copy, Debug)]
pub struct Builtins {
    pub true_term: Term,
    pub false_term: Term,
}

/// An asserted merge `t = u`, justified by a literal.
#[derive(Clone, Copy, Debug)]
pub struct Merge {
    pub t: Term,
    pub u: Term,
    pub reason: Lit,
}

/// `class` labels the `n` terms by representatives: each label is a term
/// labelled by itself.
pub open spec fn labels_ok(class: Seq<usize>, n: int) -> bool {
    &&& class.len() == n
    &&& forall|i: int| 0 <= i < n ==> (#[trigger] class[i]) < n && class[class[i] as int] == class[i]
}

/// Number of representatives among the first `k` terms.
pub open spec fn count_roots(class: Seq<usize>, k: int) -> nat
    decreases k,
{
    if k <= 0 {
        0
    } else {
        count_roots(class, k - 1) + (if class[k - 1] == (k - 1) as usize { 1nat } else { 0nat })
    }
}

pub(crate) proof fn lemma_count_roots(c1: Seq<usize>, c2: Seq<usize>, k: int, x: int)
    requires
        0 <= k,
        forall|i: int| 0 <= i < k && c2[i] == i as usize ==> c1[i] == i as usize,
    ensures
        count_roots(c2, k) <= count_roots(c1, k),
        0 <= x < k && c1[x] == x as usize && c2[x] != x as usize ==> count_roots(c2, k) < count_roots(c1, k),
    decreases k,
{
    if k > 0 {
        lemma_count_roots(c1, c2, k - 1, x);
    }
}

/// Applications `i` and `j` have heads in one class and arguments pairwise
/// in one class.
pub open spec fn congruent(ns: Seq<NodeV>, class: Seq<usize>, i: int, j: int) -> bool {
    match (ns[i], ns[j]) {
        (NodeV::App(f, xs, _), NodeV::App(g, ys, _)) => {
            &&& class[f as int] == class[g as int]
            &&& xs.len() == ys.len()
            &&& forall|k: int| 0 <= k < xs.len() ==> class[(#[trigger] xs[k]) as int] == class[ys[k] as int]
        },
        _ => false,
    }
}

/// An equality whose sides are in one class is in the class of `t`.
pub open spec fn eq_true_ok(ns: Seq<NodeV>, class: Seq<usize>, e: int, t: Term) -> bool {
    match ns[e] {
        NodeV::Eq(a, b) => class[a as int] == class[b as int] ==> class[e] == class[t as int],
        _ => true,
    }
}

/// `class` is closed: the merges hold, congruent applications share a
/// class, and equalities between terms of one class are true.
pub open spec fn is_closure(ns: Seq<NodeV>, merges: Seq<Merge>, b: Builtins, class: Seq<usize>) -> bool {
    &&& labels_ok(class, ns.len() as int)
    &&& forall|k: int| 0 <= k < merges.len() ==> class[(#[trigger] merges[k]).t as int] == class[merges[k].u as int]
    &&& forall|i: int, j: int| 0 <= i < ns.len() && 0 <= j < ns.len() && #[trigger] congruent(ns, class, i, j)
        ==> class[i] == class[j]
    &&& forall|e: int| 0 <= e < ns.len() ==> #[trigger] eq_true_ok(ns, class, e, b.true_term)
}

/// The terms of a merge and the builtins all stand in an arena of `n` terms.
pub open spec fn merges_in(merges: Seq<Merge>, n: int) -> bool {
    forall|k: int| 0 <= k < merges.len() ==> (#[trigger] merges[k]).t < n && merges[k].u < n
}

/// Put the class of `x` into the class of `y`.
fn union(class: &mut Vec<usize>, x: usize, y: usize)
    requires
        labels_ok(old(class)@, old(class)@.len() as int),
        x < old(class)@.len(),
        y < old(class)@.len(),
    ensures
        labels_ok(final(class)@, old(class)@.len() as int),
        forall|i: int| 0 <= i < old(class)@.len() ==> #[trigger] final(class)@[i] == (
            if old(class)@[i] == old(class)@[x as int] { old(class)@[y as int] } else { old(class)@[i] }),
        count_roots(final(class)@, old(class)@.len() as int) <= count_roots(old(class)@, old(class)@.len() as int),
        old(class)@[x as int] != old(class)@[y as int] ==> count_roots(final(class)@, old(class)@.len() as int)
            < count_roots(old(class)@, old(class)@.len() as int),
{
    let rx = class[x];
    let ry = class[y];
    let n = class.len();
    let mut i: usize = 0;
    while i < n
        invariant
            n == old(class)@.len(),
            class@.len() == n,
            rx == old(class)@[x as int],
            ry == old(class)@[y as int],
            labels_ok(old(class)@, n as int),
            i <= n,
            forall|k: int| 0 <= k < i ==> #[trigger] class@[k] == (
                if old(class)@[k] == rx { ry } else { old(class)@[k] }),
            forall|k: int| i <= k < n ==> #[trigger] class@[k] == old(class)@[k],
        decreases n - i,
    {
        if class[i] == rx {
            class.set(i, ry);
        }
        i += 1;
    }
    proof {
        let c1 = old(class)@;
        let c2 = class@;
        assert(c1[ry as int] == ry);
        assert forall|k: int| 0 <= k < n implies (#[trigger] c2[k]) < n && c2[c2[k] as int] == c2[k] by {
            assert(c1[k] < n);
        }
        lemma_count_roots(c1, c2, n as int, rx as int);
    }
}

/// Whether `xs` and `ys` are pairwise in one class.
fn same_classes(class: &Vec<usize>, xs: &Vec<Term>, ys: &Vec<Term>) -> (r: bool)
    requires
        xs@.len() == ys@.len(),
        forall|k: int| 0 <= k < xs@.len() ==> (#[trigger] xs@[k]) < class@.len() && ys@[k] < class@.len(),
    ensures
        r == forall|k: int| 0 <= k < xs@.len() ==> class@[(#[trigger] xs@[k]) as int] == class@[ys@[k] as int],
{
    let mut k: usize = 0;
    while k < xs.len()
        invariant
            k <= xs@.len(),
            xs@.len() == ys@.len(),
            forall|l: int| 0 <= l < xs@.len() ==> (#[trigger] xs@[l]) < class@.len() && ys@[l] < class@.len(),
            forall|l: int| 0 <= l < k ==> class@[(#[trigger] xs@[l]) as int] == class@[ys@[l] as int],
        decreases xs@.len() - k,
    {
        if class[xs[k]] != class[ys[k]] {
            assert(!(class@[xs@[k as int] as int] == class@[ys@[k as int] as int]));
            return false;
        }
        k += 1;
    }
    true
}

/// Whether `i` and `j` are congruent applications.
pub(crate) fn congruent_exec(m: &Terms, class: &Vec<usize>, i: usize, j: usize) -> (r: bool)
    requires
        m.wf(),
        labels_ok(class@, m@.len() as int),
        i < m@.len(),
        j < m@.len(),
    ensures
        r == congruent(m@, class@, i as int, j as int),
{
    proof {
        assert(crate::terms::node_below(m@[i as int], i as int));
        assert(crate::terms::node_below(m@[j as int], j as int));
    }
    match (m.view_term(i), m.view_term(j)) {
        (Node::App(f, xs, _), Node::App(g, ys, _)) => {
            if class[*f] != class[*g] || xs.len() != ys.len() {
                return false;
            }
            same_classes(class, xs, ys)
        },
        _ => false,
    }
}

/// Whether `e`, if an equality between terms of one class, is in the class of `tt`.
pub(crate) fn eq_true_exec(m: &Terms, class: &Vec<usize>, e: usize, tt: usize) -> (r: bool)
    requires
        m.wf(),
        labels_ok(class@, m@.len() as int),
        e < m@.len(),
        tt < m@.len(),
    ensures
        r == eq_true_ok(m@, class@, e as int, tt),
{
    proof { assert(crate::terms::node_below(m@[e as int], e as int)); }
    match m.view_term(e) {
        Node::Eq(a, b) => class[*a] != class[*b] || class[e] == class[tt],
        _ => true,
    }
}

/// Applications `i` and `j` have heads and arguments of equal values under `val`.
pub open spec fn congruent_val(ns: Seq<NodeV>, val: spec_fn(int) -> int, i: int, j: int) -> bool {
    match (ns[i], ns[j]) {
        (NodeV::App(f, xs, _), NodeV::App(g, ys, _)) => {
            &&& val(f as int) == val(g as int)
            &&& xs.len() == ys.len()
            &&& forall|k: int| 0 <= k < xs.len() ==> val((#[trigger] xs[k]) as int) == val(ys[k] as int)
        },
        _ => false,
    }
}

/// `val` interprets the terms of `ns` so that every merge holds, applications
/// are functions of their head and arguments, an equality between equal
/// values is true, and `true` differs from `false`.
pub open spec fn is_model(ns: Seq<NodeV>, merges: Seq<Merge>, b: Builtins, val: spec_fn(int) -> int) -> bool {
    &&& val(b.true_term as int) != val(b.false_term as int)
    &&& forall|k: int| 0 <= k < merges.len() ==> val((#[trigger] merges[k]).t as int) == val(merges[k].u as int)
    &&& forall|i: int, j: int| 0 <= i < ns.len() && 0 <= j < ns.len() && #[trigger] congruent_val(ns, val, i, j)
        ==> val(i) == val(j)
    &&& forall|e: int| 0 <= e < ns.len() ==> match #[trigger] ns[e] {
        NodeV::Eq(x, y) => val(x as int) == val(y as int) ==> val(e) == val(b.true_term as int),
        _ => true,
    }
}

/// Terms labelled alike have equal values under `val`.
pub open spec fn respects(class: Seq<usize>, val: spec_fn(int) -> int, n: int) -> bool {
    forall|i: int, j: int| 0 <= i < n && 0 <= j < n && class[i] == class[j] ==> #[trigger] val(i) == #[trigger] val(j)
}

/// The labels `class` respect every model of `merges`.
pub open spec fn sound(ns: Seq<NodeV>, merges: Seq<Merge>, b: Builtins, class: Seq<usize>) -> bool {
    forall|val: spec_fn(int) -> int| #[trigger] is_model(ns, merges, b, val) ==> respects(class, val, ns.len() as int)
}

/// The literal `l` holds under `val`.
pub open spec fn lit_holds(l: Lit, b: Builtins, val: spec_fn(int) -> int) -> bool {
    val(l.atom as int) == val((if l.sign { b.true_term } else { b.false_term }) as int)
}

pub(crate) proof fn lemma_union_sound(ns: Seq<NodeV>, merges: Seq<Merge>, b: Builtins, c1: Seq<usize>, c2: Seq<usize>, x: int, y: int)
    requires
        labels_ok(c1, ns.len() as int),
        0 <= x < ns.len(),
        0 <= y < ns.len(),
        sound(ns, merges, b, c1),
        forall|val: spec_fn(int) -> int| #[trigger] is_model(ns, merges, b, val) ==> val(x) == val(y),
        forall|i: int| 0 <= i < ns.len() ==> #[trigger] c2[i] == (if c1[i] == c1[x] { c1[y] } else { c1[i] }),
    ensures
        sound(ns, merges, b, c2),
{
    assert forall|val: spec_fn(int) -> int| #[trigger] is_model(ns, merges, b, val) implies respects(c2, val, ns.len() as int) by {
        assert forall|i: int, j: int| 0 <= i < ns.len() && 0 <= j < ns.len() && c2[i] == c2[j] implies #[trigger] val(i) == #[trigger] val(j) by {
            assert(c1[x] == c1[x]);
            assert(c1[y] == c1[y]);
            if c1[i] == c1[x] && c1[j] != c1[x] {
                assert(c1[j] == c1[y]);
                assert(val(i) == val(x));
                assert(val(j) == val(y));
            } else if c1[j] == c1[x] && c1[i] != c1[x] {
                assert(c1[i] == c1[y]);
                assert(val(j) == val(x));
                assert(val(i) == val(y));
            }
        }
    }
}

pub(crate) proof fn lemma_congruent_sound(ns: Seq<NodeV>, merges: Seq<Merge>, b: Builtins, c: Seq<usize>, i: int, j: int)
    requires
        labels_ok(c, ns.len() as int),
        crate::terms::arena_wf(ns),
        0 <= i < ns.len(),
        0 <= j < ns.len(),
        sound(ns, merges, b, c),
        congruent(ns, c, i, j),
    ensures
        forall|val: spec_fn(int) -> int| #[trigger] is_model(ns, merges, b, val) ==> val(i) == val(j),
{
    assert forall|val: spec_fn(int) -> int| #[trigger] is_model(ns, merges, b, val) implies val(i) == val(j) by {
        assert(respects(c, val, ns.len() as int));
        assert(crate::terms::node_below(ns[i], i));
        assert(crate::terms::node_below(ns[j], j));
        if let (NodeV::App(f, xs, _), NodeV::App(g, ys, _)) = (ns[i], ns[j]) {
            assert(val(f as int) == val(g as int));
            assert forall|k: int| 0 <= k < xs.len() implies val((#[trigger] xs[k]) as int) == val(ys[k] as int) by {
                assert(c[xs[k] as int] == c[ys[k] as int]);
            }
            assert(congruent_val(ns, val, i, j));
        }
    }
}

pub(crate) proof fn lemma_eq_true_sound(ns: Seq<NodeV>, merges: Seq<Merge>, b: Builtins, c: Seq<usize>, e: int)
    requires
        labels_ok(c, ns.len() as int),
        crate::terms::arena_wf(ns),
        0 <= e < ns.len(),
        b.true_term < ns.len(),
        sound(ns, merges, b, c),
        !eq_true_ok(ns, c, e, b.true_term),
    ensures
        forall|val: spec_fn(int) -> int| #[trigger] is_model(ns, merges, b, val) ==> val(e) == val(b.true_term as int),
{
    assert forall|val: spec_fn(int) -> int| #[trigger] is_model(ns, merges, b, val) implies val(e) == val(b.true_term as int) by {
        assert(respects(c, val, ns.len() as int));
        assert(crate::terms::node_below(ns[e], e));
        if let NodeV::Eq(x, y) = ns[e] {
            assert(c[x as int] == c[y as int]);
            assert(val(x as int) == val(y as int));
        }
    }
}

pub(crate) proof fn lemma_model_prefix(ns: Seq<NodeV>, merges: Seq<Merge>, b: Builtins, val: spec_fn(int) -> int, k: int)
    requires
        is_model(ns, merges, b, val),
        0 <= k <= ns.len(),
    ensures
        is_model(ns.take(k), merges, b, val),
{
    let ns2 = ns.take(k);
    assert forall|i: int, j: int| 0 <= i < ns2.len() && 0 <= j < ns2.len() && #[trigger] congruent_val(ns2, val, i, j)
        implies val(i) == val(j) by {
        assert(ns2[i] == ns[i] && ns2[j] == ns[j]);
        assert(congruent_val(ns, val, i, j));
    }
    assert forall|e: int| 0 <= e < ns2.len() implies match #[trigger] ns2[e] {
        NodeV::Eq(x, y) => val(x as int) == val(y as int) ==> val(e) == val(b.true_term as int),
        _ => true,
    } by {
        assert(ns2[e] == ns[e]);
    }
}

pub(crate) proof fn lemma_sound_more_merges(ns: Seq<NodeV>, ms: Seq<Merge>, ms2: Seq<Merge>, b: Builtins, c: Seq<usize>)
    requires
        sound(ns, ms, b, c),
        ms.len() <= ms2.len(),
        ms2.take(ms.len() as int) == ms,
    ensures
        sound(ns, ms2, b, c),
{
    assert forall|val: spec_fn(int) -> int| #[trigger] is_model(ns, ms2, b, val) implies respects(c, val, ns.len() as int) by {
        assert forall|k: int| 0 <= k < ms.len() implies val((#[trigger] ms[k]).t as int) == val(ms[k].u as int) by {
            assert(ms[k] == ms2[k]);
        }
        assert(is_model(ns, ms, b, val));
    }
}

/// Labels that respect every model of the prefix `ns.take(s.len())` on
/// their own entries, and put every later term in a class of its own,
/// respect every model of `ns`.
pub(crate) proof fn lemma_sound_extend(ns: Seq<NodeV>, ms: Seq<Merge>, b: Builtins, s: Seq<usize>, c: Seq<usize>)
    requires
        s.len() <= ns.len(),
        labels_ok(s, s.len() as int),
        sound(ns.take(s.len() as int), ms, b, s),
        c.len() == ns.len(),
        c.take(s.len() as int) == s,
        forall|i: int| s.len() <= i < c.len() ==> #[trigger] c[i] == i,
    ensures
        sound(ns, ms, b, c),
{
    assert forall|val: spec_fn(int) -> int| #[trigger] is_model(ns, ms, b, val) implies respects(c, val, ns.len() as int) by {
        lemma_model_prefix(ns, ms, b, val, s.len() as int);
        assert(respects(s, val, s.len() as int));
        assert forall|i: int, j: int| 0 <= i < ns.len() && 0 <= j < ns.len() && c[i] == c[j]
            implies #[trigger] val(i) == #[trigger] val(j) by {
            if i < s.len() && j < s.len() {
                assert(c[i] == s[i] && c[j] == s[j]);
            } else if i < s.len() {
                assert(c[i] == s[i] && s[i] < s.len());
            } else if j < s.len() {
                assert(c[j] == s[j] && s[j] < s.len());
            }
        }
    }
}

/// The literals justifying `merges`, in order.
pub open spec fn reasons(merges: Seq<Merge>) -> Seq<Lit> {
    merges.map(|i: int, mg: Merge| mg.reason)
}

/// What the closure `c` says of the registered `atom`: true when it is in
/// the class of `true`, false when it is in the class of `false`.
pub open spec fn prop_of(atom: Term, c: Seq<usize>, b: Builtins) -> Seq<Lit> {
    if c[atom as int] == c[b.true_term as int] {
        seq![Lit { atom, sign: true, pure_bool: false }]
    } else if c[atom as int] == c[b.false_term as int] {
        seq![Lit { atom, sign: false, pure_bool: false }]
    } else {
        Seq::empty()
    }
}

/// The literals that the closure `c` gives for `atoms`, in order.
pub open spec fn props_of(atoms: Seq<Term>, c: Seq<usize>, b: Builtins) -> Seq<Lit>
    decreases atoms.len(),
{
    if atoms.len() == 0 {
        Seq::empty()
    } else {
        props_of(atoms.drop_last(), c, b) + prop_of(atoms.last(), c, b)
    }
}

/// The merge that asserting `l` puts on the trail.
pub open spec fn lit_merge(ns: Seq<NodeV>, b: Builtins, l: Lit) -> Merge {
    match ns[l.atom as int] {
        NodeV::Eq(x, y) => if l.sign {
            Merge { t: x, u: y, reason: l }
        } else {
            Merge { t: l.atom, u: b.false_term, reason: l }
        },
        _ => Merge { t: l.atom, u: if l.sign { b.true_term } else { b.false_term }, reason: l },
    }
}

pub(crate) proof fn lemma_props_sound(ns: Seq<NodeV>, merges: Seq<Merge>, b: Builtins, c: Seq<usize>, atoms: Seq<Term>)
    requires
        sound(ns, merges, b, c),
        b.true_term < ns.len(),
        b.false_term < ns.len(),
        forall|k: int| 0 <= k < atoms.len() ==> (#[trigger] atoms[k]) < ns.len(),
    ensures
        forall|val: spec_fn(int) -> int| #[trigger] is_model(ns, merges, b, val) ==>
            forall|k: int| 0 <= k < props_of(atoms, c, b).len() ==> lit_holds(#[trigger] props_of(atoms, c, b)[k], b, val),
    decreases atoms.len(),
{
    if atoms.len() > 0 {
        let init = atoms.drop_last();
        assert forall|k: int| 0 <= k < init.len() implies (#[trigger] init[k]) < ns.len() by {
            assert(init[k] == atoms[k]);
        }
        lemma_props_sound(ns, merges, b, c, init);
        let a = atoms.last();
        assert(atoms[atoms.len() - 1] < ns.len());
        assert forall|val: spec_fn(int) -> int| #[trigger] is_model(ns, merges, b, val) implies
            forall|k: int| 0 <= k < props_of(atoms, c, b).len() ==> lit_holds(#[trigger] props_of(atoms, c, b)[k], b, val) by {
            assert(respects(c, val, ns.len() as int));
            let p0 = props_of(init, c, b);
            let p1 = prop_of(a, c, b);
            assert(props_of(atoms, c, b) == p0 + p1);
            assert forall|k: int| 0 <= k < props_of(atoms, c, b).len() implies lit_holds(#[trigger] props_of(atoms, c, b)[k], b, val) by {
                if k < p0.len() {
                    assert(props_of(atoms, c, b)[k] == p0[k]);
                } else {
                    assert(props_of(atoms, c, b)[k] == p1[k - p0.len()]);
                }
            }
        }
    }
}

/// The reference congruence closure over a trail of merges.
pub struct NaiveCC {
    pub builtins: Builtins,
    pub merges: Vec<Merge>,
    /// Length of the trail when each open level was pushed.
    pub levels: Vec<usize>,
    /// Equalities whose truth is reported by `final_check`.
    pub atoms: Vec<Term>,
    /// Number of registered atoms when each open level was pushed.
    pub atom_levels: Vec<usize>,
}

impl NaiveCC {
    pub open spec fn wf(&self) -> bool {
        &&& forall|k: int| 0 <= k < self.levels@.len() ==> #[trigger] self.levels@[k] <= self.merges@.len()
        &&& forall|k: int, l: int| 0 <= k <= l < self.levels@.len() ==> self.levels@[k] <= self.levels@[l]
        &&& self.atom_levels@.len() == self.levels@.len()
        &&& forall|k: int| 0 <= k < self.atom_levels@.len() ==> #[trigger] self.atom_levels@[k] <= self.atoms@.len()
        &&& forall|k: int, l: int| 0 <= k <= l < self.atom_levels@.len() ==> self.atom_levels@[k] <= self.atom_levels@[l]
    }

    pub fn new(builtins: Builtins) -> (r: NaiveCC)
        ensures
            r.wf(),
            r.builtins == builtins,
            r.merges@.len() == 0,
            r.levels@.len() == 0,
            r.atoms@.len() == 0,
            r.atom_levels@.len() == 0,
    {
        NaiveCC { builtins, merges: Vec::new(), levels: Vec::new(), atoms: Vec::new(), atom_levels: Vec::new() }
    }

    /// Register `atom`, whose truth value `final_check` then reports.
    pub fn add_literal(&mut self, atom: Term)
        requires
            old(self).wf(),
        ensures
            final(self).wf(),
            final(self).merges@ == old(self).merges@,
            final(self).levels@ == old(self).levels@,
            final(self).atom_levels@ == old(self).atom_levels@,
            final(self).builtins == old(self).builtins,
            final(self).atoms@ == old(self).atoms@ || final(self).atoms@ == old(self).atoms@.push(atom),
            forall|x: Term| final(self).atoms@.contains(x) <==> (old(self).atoms@.contains(x) || x == atom),
    {
        let mut i: usize = 0;
        while i < self.atoms.len()
            invariant
                self.atoms@ == old(self).atoms@,
                self.merges@ == old(self).merges@,
                self.levels@ == old(self).levels@,
                self.atom_levels@ == old(self).atom_levels@,
                self.builtins == old(self).builtins,
                old(self).wf(),
                i <= self.atoms@.len(),
                forall|k: int| 0 <= k < i ==> self.atoms@[k] != atom,
            decreases self.atoms@.len() - i,
        {
            if self.atoms[i] == atom {
                return;
            }
            i += 1;
        }
        self.atoms.push(atom);
        assert forall|x: Term| self.atoms@.contains(x) <==> (old(self).atoms@.contains(x) || x == atom) by {
            if old(self).atoms@.contains(x) {
                let k = choose|k: int| 0 <= k < old(self).atoms@.len() && old(self).atoms@[k] == x;
                assert(self.atoms@[k] == x);
            }
            if self.atoms@.contains(x) && x != atom {
                let k = choose|k: int| 0 <= k < self.atoms@.len() && self.atoms@[k] == x;
                assert(old(self).atoms@[k] == x);
            }
            if x == atom {
                assert(self.atoms@[self.atoms@.len() - 1] == x);
            }
        }
    }

    /// Assert `t = u`, justified by `reason`.
    pub fn merge(&mut self, t: Term, u: Term, reason: Lit)
        requires
            old(self).wf(),
        ensures
            final(self).wf(),
            final(self).merges@ == old(self).merges@.push(Merge { t, u, reason }),
            final(self).levels@ == old(self).levels@,
            final(self).atom_levels@ == old(self).atom_levels@,
            final(self).atoms@ == old(self).atoms@,
            final(self).builtins == old(self).builtins,
    {
        self.merges.push(Merge { t, u, reason });
    }

    /// Assert the literal `l` on the trail: a true equality `a = b` merges
    /// `a` and `b`; a false equality merges the equality with `false`; any
    /// other atom is merged with `true` or `false` as its sign says.
    pub fn assert_lit(&mut self, m: &Terms, l: Lit)
        requires
            old(self).wf(),
            m.wf(),
            m.valid(l.atom),
        ensures
            final(self).wf(),
            final(self).merges@ == old(self).merges@.push(lit_merge(m@, old(self).builtins, l)),
            final(self).levels@ == old(self).levels@,
            final(self).atom_levels@ == old(self).atom_levels@,
            final(self).atoms@ == old(self).atoms@,
            final(self).builtins == old(self).builtins,
    {
        let b = self.builtins;
        match m.view_term(l.atom) {
            Node::Eq(x, y) => {
                if l.sign {
                    self.merge(*x, *y, l);
                } else {
                    self.merge(l.atom, b.false_term, l);
                }
            },
            _ => {
                if l.sign {
                    self.merge(l.atom, b.true_term, l);
                } else {
                    self.merge(l.atom, b.false_term, l);
                }
            },
        }
    }

    /// Open a backtracking level.
    pub fn push_level(&mut self)
        requires
            old(self).wf(),
        ensures
            final(self).wf(),
            final(self).levels@ == old(self).levels@.push(old(self).merges.len()),
            final(self).atom_levels@ == old(self).atom_levels@.push(old(self).atoms.len()),
            final(self).merges@ == old(self).merges@,
            final(self).atoms@ == old(self).atoms@,
            final(self).builtins == old(self).builtins,
    {
        self.levels.push(self.merges.len());
        self.atom_levels.push(self.atoms.len());
    }

    /// Close the `n` innermost levels, dropping the merges asserted in them.
    pub fn pop_levels(&mut self, n: usize)
        requires
            old(self).wf(),
            n <= old(self).levels@.len(),
        ensures
            final(self).wf(),
            final(self).levels@ == old(self).levels@.take(old(self).levels@.len() - n),
            n == 0 ==> final(self).merges@ == old(self).merges@,
            n > 0 ==> final(self).merges@
                == old(self).merges@.take(old(self).levels@[old(self).levels@.len() - n] as int),
            final(self).atom_levels@ == old(self).atom_levels@.take(old(self).atom_levels@.len() - n),
            n == 0 ==> final(self).atoms@ == old(self).atoms@,
            n > 0 ==> final(self).atoms@
                == old(self).atoms@.take(old(self).atom_levels@[old(self).atom_levels@.len() - n] as int),
            final(self).builtins == old(self).builtins,
    {
        if n == 0 {
            assert(self.atom_levels@.take(self.atom_levels@.len() as int) =~= self.atom_levels@);
            assert(self.levels@.take(self.levels@.len() as int) =~= self.levels@);
            return;
        }
        let keep = self.levels.len() - n;
        let len = self.levels[keep];
        let alen = self.atom_levels[keep];
        self.levels.truncate(keep);
        self.merges.truncate(len);
        self.atom_levels.truncate(keep);
        self.atoms.truncate(alen);
        assert forall|k: int| 0 <= k < self.levels@.len() implies #[trigger] self.levels@[k] <= self.merges@.len() by {
            assert(old(self).levels@[k] <= old(self).levels@[keep as int]);
        }
        assert forall|k: int| 0 <= k < self.atom_levels@.len() implies #[trigger] self.atom_levels@[k] <= self.atoms@.len() by {
            assert(old(self).atom_levels@[k] <= old(self).atom_levels@[keep as int]);
        }
    }

    /// Label each term of `m` by its class in the congruence closure of the
    /// merges on the trail.
    pub fn closure(&self, m: &Terms) -> (r: Vec<usize>)
        requires
            m.wf(),
            merges_in(self.merges@, m@.len() as int),
            self.builtins.true_term < m@.len(),
        ensures
            is_closure(m@, self.merges@, self.builtins, r@),
            sound(m@, self.merges@, self.builtins, r@),
    {
        let n = m.len();
        let ghost ns = m@;
        let tt = self.builtins.true_term;
        let mut class: Vec<usize> = Vec::new();
        let mut i: usize = 0;
        while i < n
            invariant
                n == ns.len(),
                i <= n,
                class@.len() == i,
                forall|k: int| 0 <= k < i ==> #[trigger] class@[k] == k as usize,
            decreases n - i,
        {
            class.push(i);
            i += 1;
        }
        proof {
            assert forall|val: spec_fn(int) -> int| #[trigger] is_model(ns, self.merges@, self.builtins, val)
                implies respects(class@, val, n as int) by {
                assert forall|a: int, b: int| 0 <= a < n && 0 <= b < n && class@[a] == class@[b]
                    implies #[trigger] val(a) == #[trigger] val(b) by {
                    assert(class@[a] == a as usize && class@[b] == b as usize);
                }
            }
        }
        let mut k: usize = 0;
        while k < self.merges.len()
            invariant
                n == ns.len(),
                m@ == ns,
                merges_in(self.merges@, n as int),
                labels_ok(class@, n as int),
                sound(ns, self.merges@, self.builtins, class@),
                k <= self.merges@.len(),
                forall|l: int| 0 <= l < k ==> class@[(#[trigger] self.merges@[l]).t as int] == class@[self.merges@[l].u as int],
            decreases self.merges@.len() - k,
        {
            let mg = self.merges[k];
            assert(mg.t < n && mg.u < n);
            let ghost c1 = class@;
            proof {
                assert forall|val: spec_fn(int) -> int| #[trigger] is_model(ns, self.merges@, self.builtins, val)
                    implies val(mg.t as int) == val(mg.u as int) by {
                    assert(self.merges@[k as int] == mg);
                }
            }
            union(&mut class, mg.t, mg.u);
            proof { lemma_union_sound(ns, self.merges@, self.builtins, c1, class@, mg.t as int, mg.u as int); }
            k += 1;
        }
        loop
            invariant
                n == ns.len(),
                m@ == ns,
                m.wf(),
                tt < n,
                tt == self.builtins.true_term,
                merges_in(self.merges@, n as int),
                labels_ok(class@, n as int),
                sound(ns, self.merges@, self.builtins, class@),
                forall|l: int| 0 <= l < self.merges@.len() ==> class@[(#[trigger] self.merges@[l]).t as int] == class@[self.merges@[l].u as int],
            ensures
                is_closure(ns, self.merges@, self.builtins, class@),
                sound(ns, self.merges@, self.builtins, class@),
            decreases count_roots(class@, n as int),
        {
            let ghost c0 = class@;
            let mut changed = false;
            let mut i: usize = 0;
            while i < n
                invariant
                    n == ns.len(),
                    m@ == ns,
                    m.wf(),
                    tt < n,
                    tt == self.builtins.true_term,
                    merges_in(self.merges@, n as int),
                    i <= n,
                    labels_ok(class@, n as int),
                    sound(ns, self.merges@, self.builtins, class@),
                    forall|l: int| 0 <= l < self.merges@.len() ==> class@[(#[trigger] self.merges@[l]).t as int] == class@[self.merges@[l].u as int],
                    count_roots(class@, n as int) <= count_roots(c0, n as int),
                    changed ==> count_roots(class@, n as int) < count_roots(c0, n as int),
                    !changed ==> class@ == c0,
                    !changed ==> forall|a: int, b: int| 0 <= a < i && 0 <= b < n && #[trigger] congruent(ns, c0, a, b)
                        ==> c0[a] == c0[b],
                decreases n - i,
            {
                let mut j: usize = 0;
                while j < n
                    invariant
                        n == ns.len(),
                        m@ == ns,
                        m.wf(),
                        tt < n,
                        tt == self.builtins.true_term,
                        merges_in(self.merges@, n as int),
                        i < n,
                        j <= n,
                        labels_ok(class@, n as int),
                        sound(ns, self.merges@, self.builtins, class@),
                        forall|l: int| 0 <= l < self.merges@.len() ==> class@[(#[trigger] self.merges@[l]).t as int] == class@[self.merges@[l].u as int],
                        count_roots(class@, n as int) <= count_roots(c0, n as int),
                        changed ==> count_roots(class@, n as int) < count_roots(c0, n as int),
                        !changed ==> class@ == c0,
                        !changed ==> forall|a: int, b: int| 0 <= a < i && 0 <= b < n && #[trigger] congruent(ns, c0, a, b)
                            ==> c0[a] == c0[b],
                        !changed ==> forall|b: int| 0 <= b < j && #[trigger] congruent(ns, c0, i as int, b)
                            ==> c0[i as int] == c0[b],
                    decreases n - j,
                {
                    if congruent_exec(m, &class, i, j) && class[i] != class[j] {
                        let ghost c1 = class@;
                        proof { lemma_congruent_sound(ns, self.merges@, self.builtins, c1, i as int, j as int); }
                        union(&mut class, i, j);
                        proof { lemma_union_sound(ns, self.merges@, self.builtins, c1, class@, i as int, j as int); }
                        changed = true;
                    }
                    j += 1;
                }
                i += 1;
            }
            let mut e: usize = 0;
            while e < n
                invariant
                    n == ns.len(),
                    m@ == ns,
                    m.wf(),
                    tt < n,
                    tt == self.builtins.true_term,
                    merges_in(self.merges@, n as int),
                    e <= n,
                    labels_ok(class@, n as int),
                    sound(ns, self.merges@, self.builtins, class@),
                    forall|l: int| 0 <= l < self.merges@.len() ==> class@[(#[trigger] self.merges@[l]).t as int] == class@[self.merges@[l].u as int],
                    count_roots(class@, n as int) <= count_roots(c0, n as int),
                    changed ==> count_roots(class@, n as int) < count_roots(c0, n as int),
                    !changed ==> class@ == c0,
                    !changed ==> forall|a: int, b: int| 0 <= a < n && 0 <= b < n && #[trigger] congruent(ns, c0, a, b)
                        ==> c0[a] == c0[b],
                    !changed ==> forall|x: int| 0 <= x < e ==> #[trigger] eq_true_ok(ns, c0, x, tt),
                decreases n - e,
            {
                if !eq_true_exec(m, &class, e, tt) {
                    let ghost c1 = class@;
                    proof { lemma_eq_true_sound(ns, self.merges@, self.builtins, c1, e as int); }
                    union(&mut class, e, tt);
                    proof { lemma_union_sound(ns, self.merges@, self.builtins, c1, class@, e as int, tt as int); }
                    changed = true;
                }
                e += 1;
            }
            if !changed {
                assert(labels_ok(c0, ns.len() as int));
                assert(forall|a: int, b: int| 0 <= a < ns.len() && 0 <= b < ns.len() && #[trigger] congruent(ns, c0, a, b)
                    ==> c0[a] == c0[b]);
                assert(forall|x: int| 0 <= x < ns.len() ==> #[trigger] eq_true_ok(ns, c0, x, self.builtins.true_term));
                break;
            }
        }
        class
    }

    /// Check the trail: a conflict, made of every literal on the trail, when
    /// the closure puts `true` and `false` in one class; else the registered
    /// atoms that the closure makes true or false, as literals.
    pub fn final_check(&self, m: &Terms) -> (r: Result<Vec<Lit>, Vec<Lit>>)
        requires
            m.wf(),
            merges_in(self.merges@, m@.len() as int),
            self.builtins.true_term < m@.len(),
            self.builtins.false_term < m@.len(),
            forall|k: int| 0 <= k < self.atoms@.len() ==> (#[trigger] self.atoms@[k]) < m@.len(),
        ensures
            exists|c: Seq<usize>| #[trigger] is_closure(m@, self.merges@, self.builtins, c)
                && sound(m@, self.merges@, self.builtins, c) && match r {
                Ok(props) => c[self.builtins.true_term as int] != c[self.builtins.false_term as int]
                    && props@ == props_of(self.atoms@, c, self.builtins),
                Err(conflict) => c[self.builtins.true_term as int] == c[self.builtins.false_term as int]
                    && conflict@ == reasons(self.merges@),
            },
            r is Err ==> forall|val: spec_fn(int) -> int| !#[trigger] is_model(m@, self.merges@, self.builtins, val),
            r is Ok ==> forall|val: spec_fn(int) -> int| #[trigger] is_model(m@, self.merges@, self.builtins, val) ==>
                forall|k: int| 0 <= k < r->Ok_0@.len() ==> lit_holds(#[trigger] r->Ok_0@[k], self.builtins, val),
    {
        let class = self.closure(m);
        let tt = self.builtins.true_term;
        let ff = self.builtins.false_term;
        if class[tt] == class[ff] {
            let mut conflict: Vec<Lit> = Vec::new();
            let mut k: usize = 0;
            while k < self.merges.len()
                invariant
                    k <= self.merges@.len(),
                    conflict@ == reasons(self.merges@.take(k as int)),
                decreases self.merges@.len() - k,
            {
                conflict.push(self.merges[k].reason);
                k += 1;
                assert(conflict@ =~= reasons(self.merges@.take(k as int)));
            }
            assert(self.merges@.take(self.merges@.len() as int) =~= self.merges@);
            assert(is_closure(m@, self.merges@, self.builtins, class@));
            proof {
                assert forall|val: spec_fn(int) -> int| !#[trigger] is_model(m@, self.merges@, self.builtins, val) by {
                    if is_model(m@, self.merges@, self.builtins, val) {
                        assert(respects(class@, val, m@.len() as int));
                        assert(val(tt as int) == val(ff as int));
                    }
                }
            }
            return Err(conflict);
        }
        let mut props: Vec<Lit> = Vec::new();
        let mut k: usize = 0;
        while k < self.atoms.len()
            invariant
                k <= self.atoms@.len(),
                forall|l: int| 0 <= l < self.atoms@.len() ==> (#[trigger] self.atoms@[l]) < m@.len(),
                labels_ok(class@, m@.len() as int),
                tt == self.builtins.true_term,
                ff == self.builtins.false_term,
                tt < m@.len(),
                ff < m@.len(),
                props@ == props_of(self.atoms@.take(k as int), class@, self.builtins),
            decreases self.atoms@.len() - k,
        {
            let a = self.atoms[k];
            assert(self.atoms@.take(k as int + 1).drop_last() =~= self.atoms@.take(k as int));
            if class[a] == class[tt] {
                props.push(Lit::new_t(a, true));
            } else if class[a] == class[ff] {
                props.push(Lit::new_t(a, false));
            }
            k += 1;
        }
        assert(self.atoms@.take(self.atoms@.len() as int) =~= self.atoms@);
        assert(is_closure(m@, self.merges@, self.builtins, class@));
        proof { lemma_props_sound(m@, self.merges@, self.builtins, class@, self.atoms@); }
        Ok(props)
    }
}


/// A closed labelling that keeps `true` and `false` apart is a model.
proof fn lemma_closure_is_model(ns: Seq<NodeV>, ms: Seq<Merge>, b: Builtins, c: Seq<usize>)
    requires
        crate::terms::arena_wf(ns),
        is_closure(ns, ms, b, c),
        merges_in(ms, ns.len() as int),
        b.true_term < ns.len(),
        b.false_term < ns.len(),
        c[b.true_term as int] != c[b.false_term as int],
    ensures
        is_model(ns, ms, b, |i: int| if 0 <= i < ns.len() { c[i] as int } else { 0 }),
{
    let val = |i: int| if 0 <= i < ns.len() { c[i] as int } else { 0 };
    assert forall|k: int| 0 <= k < ms.len() implies val((#[trigger] ms[k]).t as int) == val(ms[k].u as int) by {
        assert(ms[k].t < ns.len() && ms[k].u < ns.len());
    }
    assert forall|i: int, j: int| 0 <= i < ns.len() && 0 <= j < ns.len() && #[trigger] congruent_val(ns, val, i, j)
        implies val(i) == val(j) by {
        assert(crate::terms::node_below(ns[i], i));
        assert(crate::terms::node_below(ns[j], j));
        if let (NodeV::App(f, xs, _), NodeV::App(g, ys, _)) = (ns[i], ns[j]) {
            assert forall|k: int| 0 <= k < xs.len() implies c[(#[trigger] xs[k]) as int] == c[ys[k] as int] by {
                assert(val(xs[k] as int) == val(ys[k] as int));
                assert(xs[k] < i && ys[k] < j);
            }
            assert(congruent(ns, c, i, j));
        }
    }
    assert forall|e: int| 0 <= e < ns.len() implies match #[trigger] ns[e] {
        NodeV::Eq(x, y) => val(x as int) == val(y as int) ==> val(e) == val(b.true_term as int),
        _ => true,
    } by {
        assert(crate::terms::node_below(ns[e], e));
        assert(eq_true_ok(ns, c, e, b.true_term));
    }
}

/// Any two sound closures of the same merges agree on whether `true` and
/// `false` end in one class: the incremental and the reference congruence
/// closure report a conflict on the same trails.
pub proof fn lemma_closures_agree(ns: Seq<NodeV>, ms: Seq<Merge>, b: Builtins, c1: Seq<usize>, c2: Seq<usize>)
    requires
        crate::terms::arena_wf(ns),
        merges_in(ms, ns.len() as int),
        b.true_term < ns.len(),
        b.false_term < ns.len(),
        is_closure(ns, ms, b, c1),
        sound(ns, ms, b, c1),
        is_closure(ns, ms, b, c2),
        sound(ns, ms, b, c2),
    ensures
        (c1[b.true_term as int] == c1[b.false_term as int]) == (c2[b.true_term as int] == c2[b.false_term as int]),
{
    let t = b.true_term as int;
    let f = b.false_term as int;
    if c1[t] != c1[f] && c2[t] == c2[f] {
        lemma_closure_is_model(ns, ms, b, c1);
        let val = |i: int| if 0 <= i < ns.len() { c1[i] as int } else { 0 };
        assert(respects(c2, val, ns.len() as int));
        assert(val(t) == val(f));
    }
    if c2[t] != c2[f] && c1[t] == c1[f] {
        lemma_closure_is_model(ns, ms, b, c2);
        let val = |i: int| if 0 <= i < ns.len() { c2[i] as int } else { 0 };
        assert(respects(c1, val, ns.len() as int));
        assert(val(t) == val(f));
    }
}

/// Backtracking undoes what a level did: after `push_level`, any merges and
/// any registered atoms, closing one level gives back the trail, the
/// registered atoms and the levels from before the `push_level`.
pub proof fn lemma_pop_undoes_push(s0: NaiveCC, s1: NaiveCC, extra: Seq<Merge>)
    requires
        s0.wf(),
        s1.levels@ == s0.levels@.push(s0.merges.len()),
        s1.merges@ == s0.merges@ + extra,
        s1.atom_levels@ == s0.atom_levels@.push(s0.atoms.len()),
        s0.atoms@.len() <= s1.atoms@.len(),
        s1.atoms@.take(s0.atoms@.len() as int) == s0.atoms@,
    ensures
        s1.wf(),
        s1.levels@.take(s1.levels@.len() - 1) == s0.levels@,
        s1.merges@.take(s1.levels@[s1.levels@.len() - 1] as int) == s0.merges@,
        s1.atom_levels@.take(s1.atom_levels@.len() - 1) == s0.atom_levels@,
        s1.atoms@.take(s1.atom_levels@[s1.atom_levels@.len() - 1] as int) == s0.atoms@,
{
    assert(s1.atom_levels@.take(s1.atom_levels@.len() - 1) =~= s0.atom_levels@);
    assert forall|k: int| 0 <= k < s1.atom_levels@.len() implies #[trigger] s1.atom_levels@[k] <= s1.atoms@.len() by {
        if k < s0.atom_levels@.len() {
            assert(s1.atom_levels@[k] == s0.atom_levels@[k]);
        }
    }
    assert forall|k: int, l: int| 0 <= k <= l < s1.atom_levels@.len() implies s1.atom_levels@[k] <= s1.atom_levels@[l] by {
        if l < s0.atom_levels@.len() {
            assert(s0.atom_levels@[k] <= s0.atom_levels@[l]);
        } else if k < s0.atom_levels@.len() {
            assert(s0.atom_levels@[k] <= s0.atoms@.len());
        }
    }
    assert(s1.levels@.take(s1.levels@.len() - 1) =~= s0.levels@);
    assert(s1.merges@.take(s0.merges@.len() as int) =~= s0.merges@);
    assert(s1.levels@[s1.levels@.len() - 1] == s0.merges.len());
    assert forall|k: int| 0 <= k < s1.levels@.len() implies #[trigger] s1.levels@[k] <= s1.merges@.len() by {
        if k < s0.levels@.len() {
            assert(s1.levels@[k] == s0.levels@[k]);
        }
    }
    assert forall|k: int, l: int| 0 <= k <= l < s1.levels@.len() implies s1.levels@[k] <= s1.levels@[l] by {
        if l < s0.levels@.len() {
            assert(s0.levels@[k] <= s0.levels@[l]);
        } else if k < s0.levels@.len() {
            assert(s0.levels@[k] <= s0.merges@.len());
        }
    }
}

} // verus!
