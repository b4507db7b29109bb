//! The incremental congruence closure.
//!
//! Class labels live in a backtracking table: a merge relabels the smaller
//! side's class at once, every write is logged, and closing a level puts the
//! labels back as they were. A check resumes the congruence fixpoint from
//! the current labels instead of starting from scratch.

use vstd::prelude::*;
use crate::terms::{Term, Terms, Node, NodeV};
use crate::lits::Lit;
use crate::backtrack::Backtrack;
use crate::terms::{arena_wf, extends};
use crate::naive_cc::{
    Builtins, Merge, NaiveCC, labels_ok, count_roots, congruent, eq_true_ok, is_closure, merges_in,
    lit_merge, props_of, reasons, congruent_exec, eq_true_exec, lemma_count_roots, is_model, sound,
    lit_holds, lemma_union_sound, lemma_congruent_sound, lemma_eq_true_sound, lemma_props_sound,
    lemma_sound_more_merges, lemma_sound_extend,
};

verus! {

/// Each merge of `ms` holds in the labels `c`.
pub open spec fn merges_hold(ms: Seq<Merge>, c: Seq<usize>) -> bool {
    forall|k: int| 0 <= k < ms.len() ==> c[(#[trigger] ms[k]).t as int] == c[ms[k].u as int]
}

/// `c1` is `c0` with its `n` innermost levels closed.
pub open spec fn popped(c0: CC, c1: CC, n: int) -> bool {
    let k = c0.sizes@.len() - n;
    &&& c1.trail.levels@ == c0.trail.levels@.take(k)
    &&& c1.trail.merges@ == c0.trail.merges@.take(c0.trail.levels@[k] as int)
    &&& c1.trail.atom_levels@ == c0.trail.atom_levels@.take(k)
    &&& c1.trail.atoms@ == c0.trail.atoms@.take(c0.trail.atom_levels@[k] as int)
    &&& c1.trail.builtins == c0.trail.builtins
    &&& c1.arena@ == c0.arena@
    &&& c1.class.vals@.len() == c0.class.vals@.len()
    &&& c1.class.vals@.take(c0.sizes@[k] as int) == c0.class.snaps@[k]
    &&& (forall|i: int| c0.sizes@[k] <= i < c0.class.vals@.len() ==> #[trigger] c1.class.vals@[i] == i)
    &&& c1.sizes@ == c0.sizes@.take(k)
}

/// Put the class of `x` into the class of `y`, logging each write.
fn union_logged(class: &mut Backtrack, x: usize, y: usize)
    requires
        old(class).wf(),
        labels_ok(old(class).vals@, old(class).vals@.len() as int),
        x < old(class).vals@.len(),
        y < old(class).vals@.len(),
    ensures
        final(class).wf(),
        final(class).marks@ == old(class).marks@,
        final(class).snaps@ == old(class).snaps@,
        labels_ok(final(class).vals@, old(class).vals@.len() as int),
        forall|i: int| 0 <= i < old(class).vals@.len() ==> #[trigger] final(class).vals@[i] == (
            if old(class).vals@[i] == old(class).vals@[x as int] { old(class).vals@[y as int] } else { old(class).vals@[i] }),
        count_roots(final(class).vals@, old(class).vals@.len() as int) <= count_roots(old(class).vals@, old(class).vals@.len() as int),
        old(class).vals@[x as int] != old(class).vals@[y as int] ==> count_roots(final(class).vals@, old(class).vals@.len() as int)
            < count_roots(old(class).vals@, old(class).vals@.len() as int),
{
    let ghost c1 = class.vals@;
    let rx = class.get(x);
    let ry = class.get(y);
    let n = class.vals.len();
    let mut i: usize = 0;
    while i < n
        invariant
            class.wf(),
            class.marks@ == old(class).marks@,
            class.snaps@ == old(class).snaps@,
            n == c1.len(),
            c1 == old(class).vals@,
            class.vals@.len() == n,
            rx == c1[x as int],
            ry == c1[y as int],
            labels_ok(c1, n as int),
            i <= n,
            forall|k: int| 0 <= k < i ==> #[trigger] class.vals@[k] == (if c1[k] == rx { ry } else { c1[k] }),
            forall|k: int| i <= k < n ==> #[trigger] class.vals@[k] == c1[k],
        decreases n - i,
    {
        if class.get(i) == rx {
            class.set(i, ry);
        }
        i += 1;
    }
    proof {
        let c2 = class.vals@;
        assert(c1[ry as int] == ry);
        assert forall|k: int| 0 <= k < n implies (#[trigger] c2[k]) < n && c2[c2[k] as int] == c2[k] by {
            assert(c1[k] < n);
        }
        lemma_count_roots(c1, c2, n as int, rx as int);
    }
}

/// A copy of `ms`.
fn copy_merges(ms: &Vec<Merge>) -> (r: Vec<Merge>)
    ensures
        r@ == ms@,
{
    let mut r: Vec<Merge> = Vec::new();
    let mut i: usize = 0;
    while i < ms.len()
        invariant
            i <= ms@.len(),
            r@ == ms@.take(i as int),
        decreases ms@.len() - i,
    {
        r.push(ms[i]);
        i += 1;
        assert(r@ =~= ms@.take(i as int));
    }
    assert(ms@.take(ms@.len() as int) =~= ms@);
    r
}

/// `ms` without its `i`-th merge.
fn without(ms: &Vec<Merge>, i: usize) -> (r: Vec<Merge>)
    requires
        i < ms@.len(),
    ensures
        r@ == ms@.remove(i as int),
        forall|k: int| 0 <= k < r@.len() ==> ms@.contains(#[trigger] r@[k]),
{
    let mut r: Vec<Merge> = Vec::new();
    let mut j: usize = 0;
    while j < ms.len()
        invariant
            i < ms@.len(),
            j <= ms@.len(),
            j <= i ==> r@ == ms@.take(j as int),
            j > i ==> r@ == ms@.take(j as int).remove(i as int),
        decreases ms@.len() - j,
    {
        if j != i {
            r.push(ms[j]);
        }
        j += 1;
        assert(j <= i ==> r@ =~= ms@.take(j as int));
        assert(j > i ==> r@ =~= ms@.take(j as int).remove(i as int));
    }
    assert(ms@.take(ms@.len() as int) =~= ms@);
    assert forall|k: int| 0 <= k < r@.len() implies ms@.contains(#[trigger] r@[k]) by {
        if k < i {
            assert(r@[k] == ms@[k]);
        } else {
            assert(r@[k] == ms@[k + 1]);
        }
    }
    r
}

/// Whether the congruence closure of `ms` puts `x` and `y` in one class;
/// when it does, every model of `ms` gives them one value.
fn equates(m: &Terms, b: Builtins, ms: &Vec<Merge>, x: Term, y: Term) -> (r: bool)
    requires
        m.wf(),
        merges_in(ms@, m@.len() as int),
        b.true_term < m@.len(),
        x < m@.len(),
        y < m@.len(),
    ensures
        r ==> forall|val: spec_fn(int) -> int| #[trigger] is_model(m@, ms@, b, val) ==> val(x as int) == val(y as int),
{
    let cc = NaiveCC {
        builtins: b,
        merges: copy_merges(ms),
        levels: Vec::new(),
        atoms: Vec::new(),
        atom_levels: Vec::new(),
    };
    let c = cc.closure(m);
    let r = c[x] == c[y];
    proof {
        assert forall|val: spec_fn(int) -> int| #[trigger] is_model(m@, ms@, b, val) && r implies val(x as int) == val(y as int) by {
            assert(crate::naive_cc::respects(c@, val, m@.len() as int));
        }
    }
    r
}

/// The incremental congruence closure.
pub struct CC {
    /// The merges, the levels and the registered atoms.
    pub trail: NaiveCC,
    /// The class label of each term seen so far.
    pub class: Backtrack,
    /// Number of labelled terms when each open level was pushed.
    pub sizes: Vec<usize>,
    /// The terms as last seen.
    pub arena: Ghost<Seq<NodeV>>,
}

impl CC {
    pub open spec fn inv(&self) -> bool {
        let c = self.class.vals@;
        let ms = self.trail.merges@;
        &&& self.trail.wf()
        &&& self.class.wf()
        &&& arena_wf(self.arena@)
        &&& c.len() == self.arena@.len()
        &&& sound(self.arena@, ms, self.trail.builtins, c)
        &&& labels_ok(c, c.len() as int)
        &&& merges_in(ms, c.len() as int)
        &&& merges_hold(ms, c)
        &&& self.sizes@.len() == self.class.marks@.len()
        &&& self.sizes@.len() == self.trail.levels@.len()
        &&& forall|k: int| 0 <= k < self.sizes@.len() ==> {
            let s = #[trigger] self.class.snaps@[k];
            let msk = ms.take(self.trail.levels@[k] as int);
            &&& self.sizes@[k] == s.len()
            &&& labels_ok(s, s.len() as int)
            &&& merges_in(msk, s.len() as int)
            &&& merges_hold(msk, s)
            &&& s.len() <= self.arena@.len()
            &&& sound(self.arena@.take(s.len() as int), msk, self.trail.builtins, s)
        }
    }

    /// An empty closure.
    pub fn new(builtins: Builtins) -> (r: CC)
        ensures
            r.inv(),
            r.trail.builtins == builtins,
            r.trail.merges@.len() == 0,
            r.trail.levels@.len() == 0,
            r.trail.atoms@.len() == 0,
            r.class.vals@.len() == 0,
    {
        let r = CC { trail: NaiveCC::new(builtins), class: Backtrack::new(), sizes: Vec::new(), arena: Ghost(Seq::empty()) };
        assert forall|val: spec_fn(int) -> int| #[trigger] is_model(r.arena@, r.trail.merges@, builtins, val)
            implies crate::naive_cc::respects(r.class.vals@, val, 0) by {}
        r
    }

    /// The class label of `t`.
    pub fn find(&self, t: Term) -> (r: usize)
        requires
            t < self.class.vals@.len(),
        ensures
            r == self.class.vals@[t as int],
    {
        self.class.get(t)
    }

    /// Take in the terms of `m`, which extends the arena last seen: new
    /// terms start in classes of their own.
    fn sync(&mut self, m: &Terms)
        requires
            old(self).inv(),
            m.wf(),
            extends(old(self).arena@, m@),
        ensures
            final(self).inv(),
            final(self).arena@ == m@,
            final(self).class.vals@.len() == m@.len(),
            final(self).class.vals@.take(old(self).class.vals@.len() as int) == old(self).class.vals@,
            forall|i: int| old(self).class.vals@.len() <= i < m@.len() ==> #[trigger] final(self).class.vals@[i] == i,
            final(self).trail == old(self).trail,
            final(self).sizes == old(self).sizes,
            final(self).class.marks@ == old(self).class.marks@,
            final(self).class.snaps@ == old(self).class.snaps@,
    {
        let n = m.len();
        let ghost c0 = self.class.vals@;
        let ghost a0 = self.arena@;
        while self.class.vals.len() < n
            invariant
                old(self).inv(),
                self.class.wf(),
                self.arena@ == a0,
                n == m@.len(),
                c0 == old(self).class.vals@,
                c0.len() <= self.class.vals@.len() <= n,
                self.class.vals@.take(c0.len() as int) == c0,
                forall|i: int| c0.len() <= i < self.class.vals@.len() ==> #[trigger] self.class.vals@[i] == i,
                self.trail == old(self).trail,
                self.sizes == old(self).sizes,
                self.class.marks@ == old(self).class.marks@,
                self.class.snaps@ == old(self).class.snaps@,
            decreases n - self.class.vals@.len(),
        {
            let i = self.class.vals.len();
            let ghost vb = self.class.vals@;
            self.class.grow(i);
            assert(self.class.vals@.take(c0.len() as int) =~= vb.take(c0.len() as int));
        }
        self.arena = Ghost(m@);
        proof {
            let c = self.class.vals@;
            assert(m@.take(c0.len() as int) =~= a0);
            assert forall|i: int| 0 <= i < c.len() implies (#[trigger] c[i]) < c.len() && c[c[i] as int] == c[i] by {
                if i < c0.len() {
                    assert(c[i] == c0[i]);
                    assert(c0[i] < c0.len());
                    assert(c[c0[i] as int] == c0[c0[i] as int]);
                }
            }
            let ms = self.trail.merges@;
            assert forall|k: int| 0 <= k < ms.len() implies c[(#[trigger] ms[k]).t as int] == c[ms[k].u as int] by {
                assert(c[ms[k].t as int] == c0[ms[k].t as int]);
                assert(c[ms[k].u as int] == c0[ms[k].u as int]);
            }
            lemma_sound_extend(m@, ms, self.trail.builtins, c0, c);
            assert forall|k: int| 0 <= k < self.sizes@.len() implies {
                let sk = #[trigger] self.class.snaps@[k];
                let msk = ms.take(self.trail.levels@[k] as int);
                &&& self.sizes@[k] == sk.len()
                &&& labels_ok(sk, sk.len() as int)
                &&& merges_in(msk, sk.len() as int)
                &&& merges_hold(msk, sk)
                &&& sk.len() <= self.arena@.len()
                &&& sound(self.arena@.take(sk.len() as int), msk, self.trail.builtins, sk)
            } by {
                let sk = self.class.snaps@[k];
                assert(m@.take(sk.len() as int) =~= a0.take(sk.len() as int));
            }
        }
    }

    /// An explanation of `x = y`: literals of the trail whose merges alone
    /// put `x` and `y` in one class, so that every model of them gives `x`
    /// and `y` one value. Merges are dropped from the last one back while
    /// `x` and `y` stay in one class without them, so the explanation keeps
    /// the earliest reasons. `None` when the whole trail does not put `x`
    /// and `y` in one class.
    pub fn explain(&self, m: &Terms, x: Term, y: Term) -> (r: Option<Vec<Lit>>)
        requires
            self.inv(),
            m.wf(),
            extends(self.arena@, m@),
            self.trail.builtins.true_term < m@.len(),
            x < m@.len(),
            y < m@.len(),
        ensures
            match r {
                Some(e) => exists|ms: Seq<Merge>| {
                    &&& forall|k: int| 0 <= k < ms.len() ==> self.trail.merges@.contains(#[trigger] ms[k])
                    &&& e@ == reasons(ms)
                    &&& forall|val: spec_fn(int) -> int| #[trigger] is_model(m@, ms, self.trail.builtins, val)
                        ==> val(x as int) == val(y as int)
                },
                None => true,
            },
    {
        let b = self.trail.builtins;
        let n = m.len();
        proof {
            assert forall|k: int| 0 <= k < self.trail.merges@.len() implies
                (#[trigger] self.trail.merges@[k]).t < n && self.trail.merges@[k].u < n by {
                assert(self.trail.merges@[k].t < self.class.vals@.len());
            }
        }
        let mut keep = copy_merges(&self.trail.merges);
        proof {
            assert forall|k: int| 0 <= k < keep@.len() implies self.trail.merges@.contains(#[trigger] keep@[k]) by {
                assert(self.trail.merges@[k] == keep@[k]);
            }
        }
        if !equates(m, b, &keep, x, y) {
            return None;
        }
        let mut i: usize = keep.len();
        while i > 0
            invariant
                m.wf(),
                n == m@.len(),
                b == self.trail.builtins,
                b.true_term < n,
                x < n,
                y < n,
                i <= keep@.len(),
                merges_in(keep@, n as int),
                forall|k: int| 0 <= k < keep@.len() ==> self.trail.merges@.contains(#[trigger] keep@[k]),
                forall|val: spec_fn(int) -> int| #[trigger] is_model(m@, keep@, b, val) ==> val(x as int) == val(y as int),
            decreases i,
        {
            i -= 1;
            let cand = without(&keep, i);
            if equates(m, b, &cand, x, y) {
                proof {
                    assert forall|k: int| 0 <= k < cand@.len() implies self.trail.merges@.contains(#[trigger] cand@[k]) by {
                        let j = choose|j: int| 0 <= j < keep@.len() && keep@[j] == cand@[k];
                        assert(self.trail.merges@.contains(keep@[j]));
                    }
                    assert forall|k: int| 0 <= k < cand@.len() implies (#[trigger] cand@[k]).t < n && cand@[k].u < n by {
                        let j = choose|j: int| 0 <= j < keep@.len() && keep@[j] == cand@[k];
                        assert(keep@[j].t < n);
                    }
                }
                keep = cand;
            }
        }
        let mut e: Vec<Lit> = Vec::new();
        let mut k: usize = 0;
        while k < keep.len()
            invariant
                k <= keep@.len(),
                e@ == reasons(keep@.take(k as int)),
            decreases keep@.len() - k,
        {
            e.push(keep[k].reason);
            k += 1;
            assert(e@ =~= reasons(keep@.take(k as int)));
        }
        assert(keep@.take(keep@.len() as int) =~= keep@);
        Some(e)
    }

    /// An explanation of the literal `l`: literals of the trail every model
    /// of whose merges satisfies `l`, found as for `explain` between the atom
    /// of `l` and `true` (or `false`). `None` when the whole trail does not
    /// imply `l` that way.
    pub fn explain_prop(&self, m: &Terms, l: Lit) -> (r: Option<Vec<Lit>>)
        requires
            self.inv(),
            m.wf(),
            extends(self.arena@, m@),
            self.trail.builtins.true_term < m@.len(),
            self.trail.builtins.false_term < m@.len(),
            l.atom < m@.len(),
        ensures
            match r {
                Some(e) => exists|ms: Seq<Merge>| {
                    &&& forall|k: int| 0 <= k < ms.len() ==> self.trail.merges@.contains(#[trigger] ms[k])
                    &&& e@ == reasons(ms)
                    &&& forall|val: spec_fn(int) -> int| #[trigger] is_model(m@, ms, self.trail.builtins, val)
                        ==> lit_holds(l, self.trail.builtins, val)
                },
                None => true,
            },
    {
        let side = if l.sign { self.trail.builtins.true_term } else { self.trail.builtins.false_term };
        self.explain(m, l.atom, side)
    }

    /// Cheap check of the current labels, without closing them under
    /// congruence: a conflict, made of every literal on the trail, when
    /// `true` and `false` share a class; else the registered atoms that the
    /// labels already make true or false. What it reports holds of every
    /// model of the trail, as for `final_check`.
    pub fn partial_check(&self) -> (r: Result<Vec<Lit>, Vec<Lit>>)
        requires
            self.inv(),
            self.trail.builtins.true_term < self.class.vals@.len(),
            self.trail.builtins.false_term < self.class.vals@.len(),
            forall|k: int| 0 <= k < self.trail.atoms@.len() ==> (#[trigger] self.trail.atoms@[k]) < self.class.vals@.len(),
        ensures
            ({
                let c = self.class.vals@;
                let b = self.trail.builtins;
                match r {
                    Ok(props) => c[b.true_term as int] != c[b.false_term as int]
                        && props@ == props_of(self.trail.atoms@, c, b),
                    Err(conflict) => c[b.true_term as int] == c[b.false_term as int]
                        && conflict@ == reasons(self.trail.merges@),
                }
            }),
            r is Err ==> forall|val: spec_fn(int) -> int| !#[trigger] is_model(self.arena@, self.trail.merges@, self.trail.builtins, val),
            r is Ok ==> forall|val: spec_fn(int) -> int| #[trigger] is_model(self.arena@, self.trail.merges@, self.trail.builtins, val) ==>
                forall|k: int| 0 <= k < r->Ok_0@.len() ==> lit_holds(#[trigger] r->Ok_0@[k], self.trail.builtins, val),
    {
        let tt = self.trail.builtins.true_term;
        let ff = self.trail.builtins.false_term;
        if self.class.get(tt) == self.class.get(ff) {
            let conflict = self.explain_all();
            proof {
                assert forall|val: spec_fn(int) -> int| !#[trigger] is_model(self.arena@, self.trail.merges@, self.trail.builtins, val) by {
                    if is_model(self.arena@, self.trail.merges@, self.trail.builtins, val) {
                        assert(crate::naive_cc::respects(self.class.vals@, val, self.arena@.len() as int));
                        assert(val(tt as int) == val(ff as int));
                    }
                }
            }
            return Err(conflict);
        }
        let n = self.class.vals.len();
        let mut props: Vec<Lit> = Vec::new();
        let mut k: usize = 0;
        while k < self.trail.atoms.len()
            invariant
                k <= self.trail.atoms@.len(),
                n == self.class.vals@.len(),
                forall|l: int| 0 <= l < self.trail.atoms@.len() ==> (#[trigger] self.trail.atoms@[l]) < n,
                tt == self.trail.builtins.true_term,
                ff == self.trail.builtins.false_term,
                tt < n,
                ff < n,
                props@ == props_of(self.trail.atoms@.take(k as int), self.class.vals@, self.trail.builtins),
            decreases self.trail.atoms@.len() - k,
        {
            let a = self.trail.atoms[k];
            assert(self.trail.atoms@.take(k as int + 1).drop_last() =~= self.trail.atoms@.take(k as int));
            if self.class.get(a) == self.class.get(tt) {
                props.push(Lit::new_t(a, true));
            } else if self.class.get(a) == self.class.get(ff) {
                props.push(Lit::new_t(a, false));
            }
            k += 1;
        }
        assert(self.trail.atoms@.take(self.trail.atoms@.len() as int) =~= self.trail.atoms@);
        proof { lemma_props_sound(self.arena@, self.trail.merges@, self.trail.builtins, self.class.vals@, self.trail.atoms@); }
        Ok(props)
    }

    /// The literals of the trail, in order.
    fn explain_all(&self) -> (r: Vec<Lit>)
        ensures
            r@ == reasons(self.trail.merges@),
    {
        let mut r: Vec<Lit> = Vec::new();
        let mut k: usize = 0;
        while k < self.trail.merges.len()
            invariant
                k <= self.trail.merges@.len(),
                r@ == reasons(self.trail.merges@.take(k as int)),
            decreases self.trail.merges@.len() - k,
        {
            r.push(self.trail.merges[k].reason);
            k += 1;
            assert(r@ =~= reasons(self.trail.merges@.take(k as int)));
        }
        assert(self.trail.merges@.take(self.trail.merges@.len() as int) =~= self.trail.merges@);
        r
    }

    /// Register `atom`, whose truth value `final_check` then reports.
    pub fn add_literal(&mut self, atom: Term)
        requires
            old(self).inv(),
        ensures
            final(self).inv(),
            final(self).trail.merges@ == old(self).trail.merges@,
            final(self).trail.builtins == old(self).trail.builtins,
            final(self).trail.levels@ == old(self).trail.levels@,
            final(self).trail.atom_levels@ == old(self).trail.atom_levels@,
            final(self).class == old(self).class,
            final(self).sizes@ == old(self).sizes@,
            final(self).arena@ == old(self).arena@,
            final(self).trail.atoms@ == old(self).trail.atoms@ || final(self).trail.atoms@ == old(self).trail.atoms@.push(atom),
            forall|x: Term| final(self).trail.atoms@.contains(x) <==> (old(self).trail.atoms@.contains(x) || x == atom),
    {
        self.trail.add_literal(atom);
    }

    /// Record `t = u`, justified by `reason`: the classes of `t` and `u`
    /// become one at once.
    fn add_merge(&mut self, m: &Terms, t: Term, u: Term, reason: Lit)
        requires
            old(self).inv(),
            m.wf(),
            extends(old(self).arena@, m@),
            t < m@.len(),
            u < m@.len(),
        ensures
            final(self).inv(),
            final(self).arena@ == m@,
            final(self).trail.merges@ == old(self).trail.merges@.push(Merge { t, u, reason }),
            final(self).trail.levels@ == old(self).trail.levels@,
            final(self).trail.atom_levels@ == old(self).trail.atom_levels@,
            final(self).trail.atoms@ == old(self).trail.atoms@,
            final(self).trail.builtins == old(self).trail.builtins,
            final(self).sizes@ == old(self).sizes@,
            final(self).class.snaps@ == old(self).class.snaps@,
            final(self).class.marks@ == old(self).class.marks@,
            final(self).class.vals@.len() == m@.len(),
            final(self).class.vals@[t as int] == final(self).class.vals@[u as int],
    {
        self.sync(m);
        let ghost c1 = self.class.vals@;
        let ghost ms0 = self.trail.merges@;
        self.trail.merge(t, u, reason);
        proof {
            let ms = self.trail.merges@;
            assert(ms.take(ms0.len() as int) =~= ms0);
            lemma_sound_more_merges(m@, ms0, ms, self.trail.builtins, c1);
            assert forall|val: spec_fn(int) -> int| #[trigger] is_model(m@, ms, self.trail.builtins, val)
                implies val(t as int) == val(u as int) by {
                assert(ms[ms.len() - 1] == Merge { t, u, reason });
            }
        }
        union_logged(&mut self.class, t, u);
        proof {
            let c = self.class.vals@;
            let ms = self.trail.merges@;
            lemma_union_sound(m@, ms, self.trail.builtins, c1, c, t as int, u as int);
            assert forall|k: int| 0 <= k < ms.len() implies c[(#[trigger] ms[k]).t as int] == c[ms[k].u as int] by {
                if k < ms.len() - 1 {
                    assert(ms[k] == old(self).trail.merges@[k]);
                    assert(c1[ms[k].t as int] == c1[ms[k].u as int]);
                }
            }
            assert forall|k: int| 0 <= k < self.sizes@.len() implies {
                let s = #[trigger] self.class.snaps@[k];
                let msk = ms.take(self.trail.levels@[k] as int);
                &&& self.sizes@[k] == s.len()
                &&& labels_ok(s, s.len() as int)
                &&& merges_in(msk, s.len() as int)
                &&& merges_hold(msk, s)
                &&& s.len() <= self.arena@.len()
                &&& sound(self.arena@.take(s.len() as int), msk, self.trail.builtins, s)
            } by {
                let lk = self.trail.levels@[k] as int;
                assert(lk <= old(self).trail.merges@.len());
                assert(ms.take(lk) =~= ms0.take(lk));
            }
        }
    }

    /// Assert `t = u`, justified by `reason`. When the class of `t` is the
    /// class of `true` and that of `u` the class of `false` (or the other way
    /// round), the merge is refused and the conflict returned: the literals of
    /// the trail and `reason`, whose merges have no model together. Only the
    /// labels of terms first seen here are added then. Otherwise the classes
    /// of `t` and `u` become one at once; further consequences of congruence
    /// are found by the checks.
    pub fn merge(&mut self, m: &Terms, t: Term, u: Term, reason: Lit) -> (r: Result<(), Vec<Lit>>)
        requires
            old(self).inv(),
            m.wf(),
            extends(old(self).arena@, m@),
            t < m@.len(),
            u < m@.len(),
            old(self).trail.builtins.true_term < m@.len(),
            old(self).trail.builtins.false_term < m@.len(),
        ensures
            final(self).inv(),
            final(self).arena@ == m@,
            final(self).trail.levels@ == old(self).trail.levels@,
            final(self).trail.atom_levels@ == old(self).trail.atom_levels@,
            final(self).trail.atoms@ == old(self).trail.atoms@,
            final(self).trail.builtins == old(self).trail.builtins,
            final(self).sizes@ == old(self).sizes@,
            final(self).class.snaps@ == old(self).class.snaps@,
            final(self).class.marks@ == old(self).class.marks@,
            final(self).class.vals@.len() == m@.len(),
            ({
                let c = final(self).class.vals@;
                let b = final(self).trail.builtins;
                let clash = c[b.true_term as int] != c[b.false_term as int] && (
                    (c[t as int] == c[b.true_term as int] && c[u as int] == c[b.false_term as int])
                    || (c[t as int] == c[b.false_term as int] && c[u as int] == c[b.true_term as int]));
                match r {
                    Ok(()) => !clash
                        && final(self).trail.merges@ == old(self).trail.merges@.push(Merge { t, u, reason })
                        && c[t as int] == c[u as int],
                    Err(conflict) => clash
                        && final(self).trail.merges@ == old(self).trail.merges@
                        && c.take(old(self).class.vals@.len() as int) == old(self).class.vals@
                        && conflict@ == reasons(old(self).trail.merges@.push(Merge { t, u, reason })),
                }
            }),
            r is Err ==> forall|val: spec_fn(int) -> int|
                !#[trigger] is_model(m@, old(self).trail.merges@.push(Merge { t, u, reason }), old(self).trail.builtins, val),
    {
        self.sync(m);
        let b = self.trail.builtins;
        let ct = self.class.get(t);
        let cu = self.class.get(u);
        let c_true = self.class.get(b.true_term);
        let c_false = self.class.get(b.false_term);
        if c_true != c_false && ((ct == c_true && cu == c_false) || (ct == c_false && cu == c_true)) {
            let mut conflict = self.explain_all();
            conflict.push(reason);
            proof {
                let ms = self.trail.merges@;
                let ms2 = ms.push(Merge { t, u, reason });
                assert(conflict@ =~= reasons(ms2));
                assert forall|val: spec_fn(int) -> int| !#[trigger] is_model(m@, ms2, b, val) by {
                    if is_model(m@, ms2, b, val) {
                        assert forall|k: int| 0 <= k < ms.len() implies val((#[trigger] ms[k]).t as int) == val(ms[k].u as int) by {
                            assert(ms2[k] == ms[k]);
                        }
                        assert(is_model(m@, ms, b, val));
                        assert(crate::naive_cc::respects(self.class.vals@, val, m@.len() as int));
                        assert(ms2[ms.len() as int] == Merge { t, u, reason });
                        assert(val(t as int) == val(u as int));
                        assert(val(b.true_term as int) == val(b.false_term as int));
                    }
                }
            }
            return Err(conflict);
        }
        self.add_merge(m, t, u, reason);
        proof {
            let c = self.class.vals@;
            assert(c[t as int] == c[u as int]);
        }
        Ok(())
    }

    /// Assert the literal `l`, as `NaiveCC::assert_lit` does, through `merge`.
    pub fn assert_lit(&mut self, m: &Terms, l: Lit) -> (r: Result<(), Vec<Lit>>)
        requires
            old(self).inv(),
            m.wf(),
            extends(old(self).arena@, m@),
            m.valid(l.atom),
            old(self).trail.builtins.true_term < m@.len(),
            old(self).trail.builtins.false_term < m@.len(),
        ensures
            final(self).inv(),
            r is Ok ==> final(self).trail.merges@ == old(self).trail.merges@.push(lit_merge(m@, old(self).trail.builtins, l)),
            r is Err ==> final(self).trail.merges@ == old(self).trail.merges@,
            r is Err ==> forall|val: spec_fn(int) -> int|
                !#[trigger] is_model(m@, old(self).trail.merges@.push(lit_merge(m@, old(self).trail.builtins, l)), old(self).trail.builtins, val),
            final(self).trail.levels@ == old(self).trail.levels@,
            final(self).trail.atom_levels@ == old(self).trail.atom_levels@,
            final(self).trail.atoms@ == old(self).trail.atoms@,
            final(self).trail.builtins == old(self).trail.builtins,
            final(self).sizes@ == old(self).sizes@,
            final(self).class.snaps@ == old(self).class.snaps@,
            final(self).class.vals@.len() == m@.len(),
            final(self).arena@ == m@,
    {
        let b = self.trail.builtins;
        proof { assert(crate::terms::node_below(m@[l.atom as int], l.atom as int)); }
        match m.view_term(l.atom) {
            Node::Eq(x, y) => {
                if l.sign {
                    self.merge(m, *x, *y, l)
                } else {
                    self.merge(m, l.atom, b.false_term, l)
                }
            },
            _ => {
                if l.sign {
                    self.merge(m, l.atom, b.true_term, l)
                } else {
                    self.merge(m, l.atom, b.false_term, l)
                }
            },
        }
    }

    /// Open a backtracking level.
    pub fn push_level(&mut self)
        requires
            old(self).inv(),
        ensures
            final(self).inv(),
            final(self).trail.merges@ == old(self).trail.merges@,
            final(self).trail.atoms@ == old(self).trail.atoms@,
            final(self).trail.builtins == old(self).trail.builtins,
            final(self).arena@ == old(self).arena@,
            final(self).class.vals@ == old(self).class.vals@,
            final(self).sizes@ == old(self).sizes@.push(old(self).class.vals@.len() as usize),
            final(self).class.snaps@ == old(self).class.snaps@.push(old(self).class.vals@),
    {
        self.trail.push_level();
        self.sizes.push(self.class.vals.len());
        self.class.push_level();
        proof {
            let ms = self.trail.merges@;
            let k = self.sizes@.len() - 1;
            assert(ms.take(self.trail.levels@[k] as int) =~= ms);
            assert(self.arena@.take(self.class.vals@.len() as int) =~= self.arena@);
        }
    }

    /// Close the `n` innermost levels: the merges asserted and the atoms
    /// registered in them are dropped, and the labels of the terms seen when
    /// the outermost of them was pushed are back as they were then. Terms
    /// seen since then start again in classes of their own. Closing no level
    /// changes nothing.
    pub fn pop_levels(&mut self, n: usize)
        requires
            old(self).inv(),
            n <= old(self).sizes@.len(),
        ensures
            final(self).inv(),
            n == 0 ==> *final(self) == *old(self),
            n > 0 ==> popped(*old(self), *final(self), n as int),
    {
        if n > 0 {
            self.pop_some_levels(n);
        }
    }

    fn pop_some_levels(&mut self, n: usize)
        requires
            old(self).inv(),
            1 <= n <= old(self).sizes@.len(),
        ensures
            final(self).inv(),
            popped(*old(self), *final(self), n as int),
    {
        let keep = self.sizes.len() - n;
        let size = self.sizes[keep];
        let ghost s = self.class.snaps@[keep as int];
        self.trail.pop_levels(n);
        self.class.pop_levels(n);
        self.sizes.truncate(keep);
        let len = self.class.vals.len();
        let mut i: usize = size;
        assert(s.len() == size);
        assert(self.class.vals@.len() == self.arena@.len());
        while i < len
            invariant
                self.class.wf(),
                len == self.class.vals@.len(),
                size <= i <= len,
                s.len() == size,
                labels_ok(s, size as int),
                self.class.vals@.take(size as int) == s,
                forall|j: int| size <= j < i ==> #[trigger] self.class.vals@[j] == j,
                self.class.marks@.len() == keep,
                self.class.snaps@ == old(self).class.snaps@.take(keep as int),
                self.trail.wf(),
                self.trail.levels@ == old(self).trail.levels@.take(keep as int),
                self.trail.merges@ == old(self).trail.merges@.take(old(self).trail.levels@[keep as int] as int),
                self.trail.atoms@ == old(self).trail.atoms@.take(old(self).trail.atom_levels@[keep as int] as int),
                self.trail.atom_levels@ == old(self).trail.atom_levels@.take(keep as int),
                self.trail.builtins == old(self).trail.builtins,
                self.sizes@ == old(self).sizes@.take(keep as int),
                self.arena@ == old(self).arena@,
                s.len() <= self.arena@.len(),
                sound(self.arena@.take(size as int), self.trail.merges@, self.trail.builtins, s),
            decreases len - i,
        {
            let ghost vb = self.class.vals@;
            self.class.set(i, i);
            assert(self.class.vals@.take(size as int) =~= vb.take(size as int));
            i += 1;
        }
        proof {
            let c = self.class.vals@;
            let ms = self.trail.merges@;
            assert forall|j: int| 0 <= j < c.len() implies (#[trigger] c[j]) < c.len() && c[c[j] as int] == c[j] by {
                if j < size {
                    assert(c[j] == s[j]);
                    assert(s[j] < size);
                    assert(c[s[j] as int] == s[s[j] as int]);
                }
            }
            assert forall|k: int| 0 <= k < ms.len() implies (#[trigger] ms[k]).t < c.len() && ms[k].u < c.len() by {
                assert(ms[k].t < size && ms[k].u < size);
            }
            lemma_sound_extend(self.arena@, ms, self.trail.builtins, s, c);
            assert forall|k: int| 0 <= k < ms.len() implies c[(#[trigger] ms[k]).t as int] == c[ms[k].u as int] by {
                assert(ms[k].t < size && ms[k].u < size);
                assert(c[ms[k].t as int] == s[ms[k].t as int]);
                assert(c[ms[k].u as int] == s[ms[k].u as int]);
            }
            assert forall|k: int| 0 <= k < self.sizes@.len() implies {
                let sk = #[trigger] self.class.snaps@[k];
                let msk = ms.take(self.trail.levels@[k] as int);
                &&& self.sizes@[k] == sk.len()
                &&& labels_ok(sk, sk.len() as int)
                &&& merges_in(msk, sk.len() as int)
                &&& merges_hold(msk, sk)
                &&& sk.len() <= self.arena@.len()
                &&& sound(self.arena@.take(sk.len() as int), msk, self.trail.builtins, sk)
            } by {
                let lk = old(self).trail.levels@[k] as int;
                assert(lk <= old(self).trail.levels@[keep as int]);
                assert(ms.take(lk) =~= old(self).trail.merges@.take(lk));
                assert(self.class.snaps@[k] == old(self).class.snaps@[k]);
                assert(self.trail.levels@[k] == old(self).trail.levels@[k]);
                assert(self.sizes@[k] == old(self).sizes@[k]);

            }
        }
    }

    /// Close the labels under congruence, then check them: a conflict, made
    /// of every literal on the trail, when `true` and `false` share a class;
    /// else the registered atoms that the labels make true or false.
    pub fn final_check(&mut self, m: &Terms) -> (r: Result<Vec<Lit>, Vec<Lit>>)
        requires
            old(self).inv(),
            m.wf(),
            extends(old(self).arena@, m@),
            old(self).trail.builtins.true_term < m@.len(),
            old(self).trail.builtins.false_term < m@.len(),
            forall|k: int| 0 <= k < old(self).trail.atoms@.len() ==> (#[trigger] old(self).trail.atoms@[k]) < m@.len(),
        ensures
            final(self).inv(),
            final(self).trail == old(self).trail,
            final(self).sizes@ == old(self).sizes@,
            final(self).class.snaps@ == old(self).class.snaps@,
            final(self).class.vals@.len() == m@.len(),
            final(self).arena@ == m@,
            is_closure(m@, final(self).trail.merges@, final(self).trail.builtins, final(self).class.vals@),
            ({
                let c = final(self).class.vals@;
                let b = final(self).trail.builtins;
                match r {
                    Ok(props) => c[b.true_term as int] != c[b.false_term as int]
                        && props@ == props_of(final(self).trail.atoms@, c, b),
                    Err(conflict) => c[b.true_term as int] == c[b.false_term as int]
                        && conflict@ == reasons(final(self).trail.merges@),
                }
            }),
            r is Err ==> forall|val: spec_fn(int) -> int| !#[trigger] is_model(m@, final(self).trail.merges@, final(self).trail.builtins, val),
            r is Ok ==> forall|val: spec_fn(int) -> int| #[trigger] is_model(m@, final(self).trail.merges@, final(self).trail.builtins, val) ==>
                forall|k: int| 0 <= k < r->Ok_0@.len() ==> lit_holds(#[trigger] r->Ok_0@[k], final(self).trail.builtins, val),
    {
        self.sync(m);
        let n = m.len();
        let ghost ns = m@;
        let tt = self.trail.builtins.true_term;
        let ff = self.trail.builtins.false_term;
        loop
            invariant
                self.inv(),
                self.trail == old(self).trail,
                self.sizes@ == old(self).sizes@,
                self.class.snaps@ == old(self).class.snaps@,
                n == ns.len(),
                m@ == ns,
                m.wf(),
                tt < n,
                tt == self.trail.builtins.true_term,
                self.class.vals@.len() == n,
                self.arena@ == ns,
            ensures
                is_closure(ns, self.trail.merges@, self.trail.builtins, self.class.vals@),
            decreases count_roots(self.class.vals@, n as int),
        {
            let ghost c0 = self.class.vals@;
            let mut changed = false;
            let mut i: usize = 0;
            while i < n
                invariant
                    self.inv(),
                    self.trail == old(self).trail,
                    self.sizes@ == old(self).sizes@,
                    self.class.snaps@ == old(self).class.snaps@,
                    n == ns.len(),
                    m@ == ns,
                    m.wf(),
                    tt < n,
                    tt == self.trail.builtins.true_term,
                    self.class.vals@.len() == n,
                    self.arena@ == ns,
                    i <= n,
                    count_roots(self.class.vals@, n as int) <= count_roots(c0, n as int),
                    changed ==> count_roots(self.class.vals@, n as int) < count_roots(c0, n as int),
                    !changed ==> self.class.vals@ == c0,
                    !changed ==> forall|a: int, b: int| 0 <= a < i && 0 <= b < n && #[trigger] congruent(ns, c0, a, b)
                        ==> c0[a] == c0[b],
                decreases n - i,
            {
                let mut j: usize = 0;
                while j < n
                    invariant
                        self.inv(),
                        self.trail == old(self).trail,
                        self.sizes@ == old(self).sizes@,
                        self.class.snaps@ == old(self).class.snaps@,
                        n == ns.len(),
                        m@ == ns,
                        m.wf(),
                        tt < n,
                        tt == self.trail.builtins.true_term,
                        self.class.vals@.len() == n,
                        self.arena@ == ns,
                        i < n,
                        j <= n,
                        count_roots(self.class.vals@, n as int) <= count_roots(c0, n as int),
                        changed ==> count_roots(self.class.vals@, n as int) < count_roots(c0, n as int),
                        !changed ==> self.class.vals@ == c0,
                        !changed ==> forall|a: int, b: int| 0 <= a < i && 0 <= b < n && #[trigger] congruent(ns, c0, a, b)
                            ==> c0[a] == c0[b],
                        !changed ==> forall|b: int| 0 <= b < j && #[trigger] congruent(ns, c0, i as int, b)
                            ==> c0[i as int] == c0[b],
                    decreases n - j,
                {
                    if congruent_exec(m, &self.class.vals, i, j) && self.class.get(i) != self.class.get(j) {
                        proof {
                            lemma_congruent_sound(ns, self.trail.merges@, self.trail.builtins, self.class.vals@, i as int, j as int);
                        }
                        self.union_keep(i, j);
                        changed = true;
                    }
                    j += 1;
                }
                i += 1;
            }
            let mut e: usize = 0;
            while e < n
                invariant
                    self.inv(),
                    self.trail == old(self).trail,
                    self.sizes@ == old(self).sizes@,
                    self.class.snaps@ == old(self).class.snaps@,
                    n == ns.len(),
                    m@ == ns,
                    m.wf(),
                    tt < n,
                    tt == self.trail.builtins.true_term,
                    self.class.vals@.len() == n,
                    self.arena@ == ns,
                    e <= n,
                    count_roots(self.class.vals@, n as int) <= count_roots(c0, n as int),
                    changed ==> count_roots(self.class.vals@, n as int) < count_roots(c0, n as int),
                    !changed ==> self.class.vals@ == c0,
                    !changed ==> forall|a: int, b: int| 0 <= a < n && 0 <= b < n && #[trigger] congruent(ns, c0, a, b)
                        ==> c0[a] == c0[b],
                    !changed ==> forall|x: int| 0 <= x < e ==> #[trigger] eq_true_ok(ns, c0, x, tt),
                decreases n - e,
            {
                if !eq_true_exec(m, &self.class.vals, e, tt) {
                    proof {
                        lemma_eq_true_sound(ns, self.trail.merges@, self.trail.builtins, self.class.vals@, e as int);
                    }
                    self.union_keep(e, tt);
                    changed = true;
                }
                e += 1;
            }
            if !changed {
                break;
            }
        }
        let c = &self.class.vals;
        if c[tt] == c[ff] {
            let mut conflict: Vec<Lit> = Vec::new();
            let mut k: usize = 0;
            while k < self.trail.merges.len()
                invariant
                    k <= self.trail.merges@.len(),
                    conflict@ == reasons(self.trail.merges@.take(k as int)),
                decreases self.trail.merges@.len() - k,
            {
                conflict.push(self.trail.merges[k].reason);
                k += 1;
                assert(conflict@ =~= reasons(self.trail.merges@.take(k as int)));
            }
            assert(self.trail.merges@.take(self.trail.merges@.len() as int) =~= self.trail.merges@);
            proof {
                assert forall|val: spec_fn(int) -> int| !#[trigger] is_model(m@, self.trail.merges@, self.trail.builtins, val) by {
                    if is_model(m@, self.trail.merges@, self.trail.builtins, val) {
                        assert(crate::naive_cc::respects(self.class.vals@, val, m@.len() as int));
                        assert(val(tt as int) == val(ff as int));
                    }
                }
            }
            return Err(conflict);
        }
        let mut props: Vec<Lit> = Vec::new();
        let mut k: usize = 0;
        while k < self.trail.atoms.len()
            invariant
                k <= self.trail.atoms@.len(),
                self.trail == old(self).trail,
                forall|l: int| 0 <= l < self.trail.atoms@.len() ==> (#[trigger] self.trail.atoms@[l]) < n,
                labels_ok(self.class.vals@, n as int),
                tt == self.trail.builtins.true_term,
                ff == self.trail.builtins.false_term,
                tt < n,
                ff < n,
                props@ == props_of(self.trail.atoms@.take(k as int), self.class.vals@, self.trail.builtins),
            decreases self.trail.atoms@.len() - k,
        {
            let a = self.trail.atoms[k];
            assert(self.trail.atoms@.take(k as int + 1).drop_last() =~= self.trail.atoms@.take(k as int));
            if self.class.get(a) == self.class.get(tt) {
                props.push(Lit::new_t(a, true));
            } else if self.class.get(a) == self.class.get(ff) {
                props.push(Lit::new_t(a, false));
            }
            k += 1;
        }
        assert(self.trail.atoms@.take(self.trail.atoms@.len() as int) =~= self.trail.atoms@);
        proof { lemma_props_sound(m@, self.trail.merges@, self.trail.builtins, self.class.vals@, self.trail.atoms@); }
        Ok(props)
    }

    /// `union_logged` on the labels, keeping the invariant: merges that held
    /// still hold once two classes become one.
    fn union_keep(&mut self, x: usize, y: usize)
        requires
            old(self).inv(),
            x < old(self).class.vals@.len(),
            y < old(self).class.vals@.len(),
            forall|val: spec_fn(int) -> int| #[trigger] is_model(old(self).arena@, old(self).trail.merges@, old(self).trail.builtins, val)
                ==> val(x as int) == val(y as int),
        ensures
            final(self).inv(),
            final(self).arena@ == old(self).arena@,
            final(self).trail == old(self).trail,
            final(self).sizes@ == old(self).sizes@,
            final(self).class.snaps@ == old(self).class.snaps@,
            final(self).class.vals@.len() == old(self).class.vals@.len(),
            forall|i: int| 0 <= i < old(self).class.vals@.len() ==> #[trigger] final(self).class.vals@[i] == (
                if old(self).class.vals@[i] == old(self).class.vals@[x as int] { old(self).class.vals@[y as int] }
                else { old(self).class.vals@[i] }),
            count_roots(final(self).class.vals@, old(self).class.vals@.len() as int)
                <= count_roots(old(self).class.vals@, old(self).class.vals@.len() as int),
            old(self).class.vals@[x as int] != old(self).class.vals@[y as int]
                ==> count_roots(final(self).class.vals@, old(self).class.vals@.len() as int)
                < count_roots(old(self).class.vals@, old(self).class.vals@.len() as int),
    {
        let ghost c1 = self.class.vals@;
        union_logged(&mut self.class, x, y);
        proof {
            let c = self.class.vals@;
            let ms = self.trail.merges@;
            assert forall|k: int| 0 <= k < ms.len() implies c[(#[trigger] ms[k]).t as int] == c[ms[k].u as int] by {
                assert(c1[ms[k].t as int] == c1[ms[k].u as int]);
            }
            lemma_union_sound(self.arena@, ms, self.trail.builtins, c1, c, x as int, y as int);
        }
    }
}


/// Backtracking is exact: from `c0`, `push_level` gives `c1`; whatever
/// merges and checks follow leave the level stack of `c1` in place; closing
/// that level gives `c2`, which has the trail, the registered atoms and the
/// levels of `c0` and labels every term that `c0` labelled as `c0` did.
pub proof fn lemma_pop_restores(c0: CC, c1: CC, c2: CC)
    requires
        c0.inv(),
        c1.inv(),
        c1.class.snaps@ == c0.class.snaps@.push(c0.class.vals@),
        c1.sizes@ == c0.sizes@.push(c0.class.vals@.len() as usize),
        c1.trail.levels@ == c0.trail.levels@.push(c0.trail.merges.len()),
        c1.trail.merges@.take(c0.trail.merges@.len() as int) == c0.trail.merges@,
        c2.trail.levels@ == c1.trail.levels@.take(c1.trail.levels@.len() - 1),
        c2.trail.merges@ == c1.trail.merges@.take(c1.trail.levels@[c1.trail.levels@.len() - 1] as int),
        c2.class.vals@.take(c1.sizes@[c1.sizes@.len() - 1] as int) == c1.class.snaps@[c1.sizes@.len() - 1],
        c1.trail.atom_levels@ == c0.trail.atom_levels@.push(c0.trail.atoms.len()),
        c0.trail.atoms@.len() <= c1.trail.atoms@.len(),
        c1.trail.atoms@.take(c0.trail.atoms@.len() as int) == c0.trail.atoms@,
        c2.trail.atoms@ == c1.trail.atoms@.take(c1.trail.atom_levels@[c1.trail.atom_levels@.len() - 1] as int),
    ensures
        c2.trail.atoms@ == c0.trail.atoms@,
        c2.trail.levels@ == c0.trail.levels@,
        c2.trail.merges@ == c0.trail.merges@,
        c2.class.vals@.take(c0.class.vals@.len() as int) == c0.class.vals@,
{
    assert(c1.trail.levels@.take(c1.trail.levels@.len() - 1) =~= c0.trail.levels@);
}

} // verus!
