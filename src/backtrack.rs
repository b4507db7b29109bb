//! A table of `usize` values with an undo log and backtracking levels.
//!
//! Every write records the value it overwrites. `push_level` marks the log;
//! `pop_levels(n)` replays the log backwards to the `n`-th mark from the
//! end, which restores the table as it was when that level was pushed.
//! Growing the table is not undone: entries added later stay.

use vstd::prelude::*;

verus! {

/// `vals` with the writes recorded in `log` undone, the last one first.
pub open spec fn undo_all(vals: Seq<usize>, log: Seq<(usize, usize)>) -> Seq<usize>
    decreases log.len(),
{
    if log.len() == 0 {
        vals
    } else {
        let (i, v) = log.last();
        undo_all(vals.update(i as int, v), log.drop_last())
    }
}

/// Every write of `log` is below `n`.
pub open spec fn log_below(log: Seq<(usize, usize)>, n: int) -> bool {
    forall|k: int| 0 <= k < log.len() ==> (#[trigger] log[k]).0 < n
}

proof fn lemma_undo_all_len(vals: Seq<usize>, log: Seq<(usize, usize)>)
    requires
        log_below(log, vals.len() as int),
    ensures
        undo_all(vals, log).len() == vals.len(),
    decreases log.len(),
{
    if log.len() > 0 {
        let (i, v) = log.last();
        assert(log[log.len() - 1].0 < vals.len());
        lemma_undo_all_len(vals.update(i as int, v), log.drop_last());
    }
}

proof fn lemma_undo_all_push(vals: Seq<usize>, log: Seq<(usize, usize)>, x: usize)
    requires
        log_below(log, vals.len() as int),
    ensures
        undo_all(vals.push(x), log) == undo_all(vals, log).push(x),
    decreases log.len(),
{
    if log.len() > 0 {
        let (i, v) = log.last();
        assert(log[log.len() - 1].0 < vals.len());
        assert(vals.push(x).update(i as int, v) =~= vals.update(i as int, v).push(x));
        lemma_undo_all_push(vals.update(i as int, v), log.drop_last(), x);
    }
}

proof fn lemma_undo_all_append(vals: Seq<usize>, l1: Seq<(usize, usize)>, l2: Seq<(usize, usize)>)
    ensures
        undo_all(vals, l1 + l2) == undo_all(undo_all(vals, l2), l1),
    decreases l2.len(),
{
    if l2.len() == 0 {
        assert(l1 + l2 =~= l1);
    } else {
        let (i, v) = l2.last();
        assert((l1 + l2).drop_last() =~= l1 + l2.drop_last());
        assert((l1 + l2).last() == l2.last());
        lemma_undo_all_append(vals.update(i as int, v), l1, l2.drop_last());
    }
}

pub struct Backtrack {
    pub vals: Vec<usize>,
    pub log: Vec<(usize, usize)>,
    /// Length of the log when each open level was pushed.
    pub marks: Vec<usize>,
    /// The table when each open level was pushed.
    pub snaps: Ghost<Seq<Seq<usize>>>,
}

impl Backtrack {
    pub open spec fn wf(&self) -> bool {
        &&& log_below(self.log@, self.vals@.len() as int)
        &&& self.snaps@.len() == self.marks@.len()
        &&& forall|k: int| 0 <= k < self.marks@.len() ==> #[trigger] self.marks@[k] <= self.log@.len()
        &&& forall|k: int, l: int| 0 <= k <= l < self.marks@.len() ==> self.marks@[k] <= self.marks@[l]
        &&& forall|k: int| 0 <= k < self.marks@.len() ==> {
            let s = #[trigger] self.snaps@[k];
            &&& s.len() <= self.vals@.len()
            &&& undo_all(self.vals@, self.log@.subrange(self.marks@[k] as int, self.log@.len() as int)).take(s.len() as int) == s
        }
    }

    /// An empty table with no level.
    pub fn new() -> (r: Backtrack)
        ensures
            r.wf(),
            r.vals@.len() == 0,
            r.marks@.len() == 0,
    {
        Backtrack { vals: Vec::new(), log: Vec::new(), marks: Vec::new(), snaps: Ghost(Seq::empty()) }
    }

    /// Value at `i`.
    pub fn get(&self, i: usize) -> (r: usize)
        requires
            i < self.vals@.len(),
        ensures
            r == self.vals@[i as int],
    {
        self.vals[i]
    }

    /// Add an entry holding `x` at the end of the table.
    pub fn grow(&mut self, x: usize)
        requires
            old(self).wf(),
        ensures
            final(self).wf(),
            final(self).vals@ == old(self).vals@.push(x),
            final(self).marks@ == old(self).marks@,
            final(self).snaps@ == old(self).snaps@,
    {
        let ghost v0 = self.vals@;
        self.vals.push(x);
        proof {
            assert forall|k: int| 0 <= k < self.marks@.len() implies {
                let s = #[trigger] self.snaps@[k];
                &&& s.len() <= self.vals@.len()
                &&& undo_all(self.vals@, self.log@.subrange(self.marks@[k] as int, self.log@.len() as int)).take(s.len() as int) == s
            } by {
                let s = self.snaps@[k];
                let l = self.log@.subrange(self.marks@[k] as int, self.log@.len() as int);
                assert(log_below(l, v0.len() as int)) by {
                    assert forall|j: int| 0 <= j < l.len() implies (#[trigger] l[j]).0 < v0.len() by {
                        assert(l[j] == self.log@[self.marks@[k] + j]);
                    }
                }
                lemma_undo_all_push(v0, l, x);
                lemma_undo_all_len(v0, l);
                assert(undo_all(self.vals@, l).take(s.len() as int) =~= undo_all(v0, l).take(s.len() as int));
            }
        }
    }

    /// Write `x` at `i`, recording the old value.
    pub fn set(&mut self, i: usize, x: usize)
        requires
            old(self).wf(),
            i < old(self).vals@.len(),
        ensures
            final(self).wf(),
            final(self).vals@ == old(self).vals@.update(i as int, x),
            final(self).marks@ == old(self).marks@,
            final(self).snaps@ == old(self).snaps@,
    {
        let ghost v0 = self.vals@;
        let ghost l0 = self.log@;
        let old_x = self.vals[i];
        self.log.push((i, old_x));
        self.vals.set(i, x);
        proof {
            assert(v0.update(i as int, x).update(i as int, old_x) =~= v0);
            assert forall|k: int| 0 <= k < self.log@.len() implies (#[trigger] self.log@[k]).0 < self.vals@.len() by {
                if k < l0.len() {
                    assert(self.log@[k] == l0[k]);
                }
            }
            assert forall|k: int| 0 <= k < self.marks@.len() implies {
                let s = #[trigger] self.snaps@[k];
                &&& s.len() <= self.vals@.len()
                &&& undo_all(self.vals@, self.log@.subrange(self.marks@[k] as int, self.log@.len() as int)).take(s.len() as int) == s
            } by {
                let l = self.log@.subrange(self.marks@[k] as int, self.log@.len() as int);
                assert(l.drop_last() =~= l0.subrange(self.marks@[k] as int, l0.len() as int));
                assert(l.last() == (i, old_x));
            }
        }
    }

    /// Open a level.
    pub fn push_level(&mut self)
        requires
            old(self).wf(),
        ensures
            final(self).wf(),
            final(self).vals@ == old(self).vals@,
            final(self).marks@.len() == old(self).marks@.len() + 1,
            final(self).snaps@ == old(self).snaps@.push(old(self).vals@),
    {
        let ghost v0 = self.vals@;
        self.marks.push(self.log.len());
        self.snaps = Ghost(self.snaps@.push(v0));
        proof {
            let k = self.marks@.len() - 1;
            assert(self.log@.subrange(self.log@.len() as int, self.log@.len() as int) =~= Seq::<(usize, usize)>::empty());
            assert(v0.take(v0.len() as int) =~= v0);
            assert(self.snaps@[k] == v0);
        }
    }

    /// Close the `n` innermost levels: the table is back to what it was when
    /// the outermost of them was pushed, but for entries added since.
    pub fn pop_levels(&mut self, n: usize)
        requires
            old(self).wf(),
            1 <= n <= old(self).marks@.len(),
        ensures
            final(self).wf(),
            final(self).vals@.len() == old(self).vals@.len(),
            final(self).vals@.take(old(self).snaps@[old(self).marks@.len() - n].len() as int)
                == old(self).snaps@[old(self).marks@.len() - n],
            final(self).marks@ == old(self).marks@.take(old(self).marks@.len() - n),
            final(self).snaps@ == old(self).snaps@.take(old(self).marks@.len() - n),
    {
        let keep = self.marks.len() - n;
        let target = self.marks[keep];
        let ghost v0 = self.vals@;
        let ghost l0 = self.log@;
        proof { assert(l0.subrange(target as int, l0.len() as int) =~= l0.subrange(target as int, l0.len() as int)); }
        while self.log.len() > target
            invariant
                old(self).wf(),
                v0 == old(self).vals@,
                l0 == old(self).log@,
                target <= self.log@.len() <= l0.len(),
                self.log@ == l0.take(self.log@.len() as int),
                self.vals@.len() == v0.len(),
                self.marks@ == old(self).marks@,
                self.snaps@ == old(self).snaps@,
                undo_all(self.vals@, self.log@.subrange(target as int, self.log@.len() as int))
                    == undo_all(v0, l0.subrange(target as int, l0.len() as int)),
            decreases self.log@.len(),
        {
            let ghost vb = self.vals@;
            let ghost lb = self.log@;
            let (i, v) = self.log.pop().unwrap();
            assert(lb[lb.len() - 1] == l0[lb.len() - 1]);
            assert(l0[lb.len() - 1].0 < v0.len());
            self.vals.set(i, v);
            proof {
                let sub = lb.subrange(target as int, lb.len() as int);
                assert(sub.drop_last() =~= self.log@.subrange(target as int, self.log@.len() as int));
                assert(sub.last() == (i, v));
                assert(self.log@ =~= l0.take(self.log@.len() as int));
            }
        }
        proof {
            assert(self.log@.subrange(target as int, self.log@.len() as int) =~= Seq::<(usize, usize)>::empty());
            assert(self.log@ =~= l0.subrange(0, target as int));
        }
        self.marks.truncate(keep);
        self.snaps = Ghost(self.snaps@.take(keep as int));
        proof {
            assert forall|k: int| 0 <= k < self.log@.len() implies (#[trigger] self.log@[k]).0 < self.vals@.len() by {
                assert(self.log@[k] == l0[k]);
            }
            assert forall|k: int| 0 <= k < self.marks@.len() implies #[trigger] self.marks@[k] <= self.log@.len() by {
                assert(old(self).marks@[k] <= old(self).marks@[keep as int]);
            }
            assert forall|k: int| 0 <= k < self.marks@.len() implies {
                let s = #[trigger] self.snaps@[k];
                &&& s.len() <= self.vals@.len()
                &&& undo_all(self.vals@, self.log@.subrange(self.marks@[k] as int, self.log@.len() as int)).take(s.len() as int) == s
            } by {
                let mk = self.marks@[k] as int;
                assert(old(self).marks@[k] <= old(self).marks@[keep as int]);
                let la = l0.subrange(mk, target as int);
                let lb2 = l0.subrange(target as int, l0.len() as int);
                assert(l0.subrange(mk, l0.len() as int) =~= la + lb2);
                lemma_undo_all_append(v0, la, lb2);
                assert(self.log@.subrange(mk, self.log@.len() as int) =~= la);
                assert(self.snaps@[k] == old(self).snaps@[k]);
            }
        }
    }
}

} // verus!
