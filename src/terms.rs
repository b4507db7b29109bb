//! A hash-consed DAG of terms.
//!
//! Each term is a `u32` index into a flat arena. A node only refers to
//! nodes that were created before it, so every child has a smaller index
//! than its parent, and no two nodes of the arena are structurally equal.

use vstd::prelude::*;

verus! {

/// Identifier of a term: its index in the arena.
pub type Term = usize;

/// The shape of one term.
#[derive(Clone, Debug)]
pub enum Node {
    /// The sort of Boolean terms.
    TyBool,
    /// A Boolean constant.
    Bool(bool),
    /// Negation.
    Not(Term),
    /// Conjunction.
    And(Vec<Term>),
    /// Disjunction.
    Or(Vec<Term>),
    /// Implication `x1 => ... => xn`, i.e. `not x1 \/ ... \/ not x(n-1) \/ xn`.
    Imply(Vec<Term>),
    /// Equality.
    Eq(Term, Term),
    /// Pairwise disequality of all the arguments.
    Distinct(Vec<Term>),
    /// If-then-else.
    Ite(Term, Term, Term),
    /// An uninterpreted constant, given by its symbol, with an optional sort.
    Const(u32, Option<Term>),
    /// An application of a head term to arguments, with an optional sort.
    App(Term, Vec<Term>, Option<Term>),
}

impl Node {
    /// A Boolean constant.
    pub fn is_bool(&self) -> (r: bool)
        ensures
            r == (self@ is Bool),
    {
        match self {
            Node::Bool(_) => true,
            _ => false,
        }
    }

    /// The constant `true`.
    pub fn is_true(&self) -> (r: bool)
        ensures
            r == (self@ == NodeV::Bool(true)),
    {
        match self {
            Node::Bool(true) => true,
            _ => false,
        }
    }

    /// The constant `false`.
    pub fn is_false(&self) -> (r: bool)
        ensures
            r == (self@ == NodeV::Bool(false)),
    {
        match self {
            Node::Bool(false) => true,
            _ => false,
        }
    }
}

/// The mathematical shape of a term.
pub enum NodeV {
    TyBool,
    Bool(bool),
    Not(Term),
    And(Seq<Term>),
    Or(Seq<Term>),
    Imply(Seq<Term>),
    Eq(Term, Term),
    Distinct(Seq<Term>),
    Ite(Term, Term, Term),
    Const(u32, Option<Term>),
    App(Term, Seq<Term>, Option<Term>),
}

impl View for Node {
    type V = NodeV;

    open spec fn view(&self) -> NodeV {
        match self {
            Node::TyBool => NodeV::TyBool,
            Node::Bool(b) => NodeV::Bool(*b),
            Node::Not(a) => NodeV::Not(*a),
            Node::And(xs) => NodeV::And(xs@),
            Node::Or(xs) => NodeV::Or(xs@),
            Node::Imply(xs) => NodeV::Imply(xs@),
            Node::Eq(a, b) => NodeV::Eq(*a, *b),
            Node::Distinct(xs) => NodeV::Distinct(xs@),
            Node::Ite(a, b, c) => NodeV::Ite(*a, *b, *c),
            Node::Const(s, ty) => NodeV::Const(*s, *ty),
            Node::App(f, xs, ty) => NodeV::App(*f, xs@, *ty),
        }
    }
}

pub open spec fn all_below(xs: Seq<Term>, n: int) -> bool {
    forall|i: int| 0 <= i < xs.len() ==> (#[trigger] xs[i]) < n
}

pub open spec fn opt_below(o: Option<Term>, n: int) -> bool {
    match o {
        Some(t) => t < n,
        None => true,
    }
}

/// Every term that the node refers to is below `n`.
pub open spec fn node_below(v: NodeV, n: int) -> bool {
    match v {
        NodeV::TyBool | NodeV::Bool(_) => true,
        NodeV::Not(a) => a < n,
        NodeV::And(xs) | NodeV::Or(xs) | NodeV::Imply(xs) | NodeV::Distinct(xs) => all_below(xs, n),
        NodeV::Eq(a, b) => a < n && b < n,
        NodeV::Ite(a, b, c) => a < n && b < n && c < n,
        NodeV::Const(_, ty) => opt_below(ty, n),
        NodeV::App(f, xs, ty) => f < n && all_below(xs, n) && opt_below(ty, n),
    }
}

/// The arena of all terms.
pub struct Terms {
    pub nodes: Vec<Node>,
}

impl View for Terms {
    type V = Seq<NodeV>;

    open spec fn view(&self) -> Seq<NodeV> {
        self.nodes@.map_values(|n: Node| n@)
    }
}

/// `ns` only refers backwards and holds each shape once.
pub open spec fn arena_wf(ns: Seq<NodeV>) -> bool {
    &&& forall|i: int| 0 <= i < ns.len() ==> node_below(#[trigger] ns[i], i)
    &&& forall|i: int, j: int| 0 <= i < j < ns.len() ==> ns[i] != ns[j]
}

/// `ns2` keeps every term of `ns1` as it was.
pub open spec fn extends(ns1: Seq<NodeV>, ns2: Seq<NodeV>) -> bool {
    ns1.len() <= ns2.len() && forall|i: int| 0 <= i < ns1.len() ==> #[trigger] ns2[i] == ns1[i]
}

pub proof fn lemma_extends_refl(ns: Seq<NodeV>)
    ensures
        extends(ns, ns),
{
}

pub proof fn lemma_extends_trans(a: Seq<NodeV>, b: Seq<NodeV>, c: Seq<NodeV>)
    requires
        extends(a, b),
        extends(b, c),
    ensures
        extends(a, c),
{
}

fn eq_terms(a: &Vec<Term>, b: &Vec<Term>) -> (r: bool)
    ensures
        r == (a@ == b@),
{
    if a.len() != b.len() {
        return false;
    }
    let mut i: usize = 0;
    while i < a.len()
        invariant
            a@.len() == b@.len(),
            i <= a@.len(),
            forall|k: int| 0 <= k < i ==> a@[k] == b@[k],
        decreases a@.len() - i,
    {
        if a[i] != b[i] {
            return false;
        }
        i += 1;
    }
    assert(a@ =~= b@);
    true
}

fn eq_nodes(a: &Node, b: &Node) -> (r: bool)
    ensures
        r == (a@ == b@),
{
    match (a, b) {
        (Node::TyBool, Node::TyBool) => true,
        (Node::Bool(x), Node::Bool(y)) => *x == *y,
        (Node::Not(x), Node::Not(y)) => *x == *y,
        (Node::And(x), Node::And(y)) => eq_terms(x, y),
        (Node::Or(x), Node::Or(y)) => eq_terms(x, y),
        (Node::Imply(x), Node::Imply(y)) => eq_terms(x, y),
        (Node::Eq(x1, x2), Node::Eq(y1, y2)) => *x1 == *y1 && *x2 == *y2,
        (Node::Distinct(x), Node::Distinct(y)) => eq_terms(x, y),
        (Node::Ite(x1, x2, x3), Node::Ite(y1, y2, y3)) => *x1 == *y1 && *x2 == *y2 && *x3 == *y3,
        (Node::Const(s1, t1), Node::Const(s2, t2)) => *s1 == *s2 && *t1 == *t2,
        (Node::App(f1, x, t1), Node::App(f2, y, t2)) => *f1 == *f2 && *t1 == *t2 && eq_terms(x, y),
        _ => false,
    }
}

impl Terms {
    pub open spec fn wf(&self) -> bool {
        arena_wf(self@)
    }

    pub open spec fn valid(&self, t: Term) -> bool {
        t < self@.len()
    }

    /// An empty arena.
    pub fn new() -> (r: Terms)
        ensures
            r.wf(),
            r@.len() == 0,
    {
        Terms { nodes: Vec::new() }
    }

    /// Number of terms created so far.
    pub fn len(&self) -> (r: usize)
        ensures
            r == self@.len(),
    {
        self.nodes.len()
    }

    /// The shape of `t`.
    pub fn view_term(&self, t: Term) -> (r: &Node)
        requires
            self.valid(t),
        ensures
            r@ == self@[t as int],
    {
        &self.nodes[t as usize]
    }

    /// The term of shape `n`: the existing one if there is one, else a new
    /// one at the end of the arena.
    pub fn mk(&mut self, n: Node) -> (r: Term)
        requires
            old(self).wf(),
            node_below(n@, old(self)@.len() as int),
        ensures
            final(self).wf(),
            extends(old(self)@, final(self)@),
            final(self).valid(r),
            final(self)@[r as int] == n@,
            old(self).valid(r) || final(self)@ == old(self)@.push(n@),
            forall|i: int| 0 <= i < old(self)@.len() && old(self)@[i] == n@ ==> r == i,
    {
        let mut i: usize = 0;
        while i < self.nodes.len()
            invariant
                self.wf(),
                i <= self@.len(),
                forall|k: int| 0 <= k < i ==> self@[k] != n@,
            decreases self@.len() - i,
        {
            if eq_nodes(&self.nodes[i], &n) {
                proof {
                    assert forall|k: int| 0 <= k < self@.len() && self@[k] == n@ implies k == i by {
                        if k != i {
                            assert(self@[k] == self@[i as int]);
                        }
                    }
                }
                return i;
            }
            i += 1;
        }
        let ghost n0 = self@;
        let t = self.nodes.len();
        self.nodes.push(n);
        assert(self@ =~= n0.push(n@));
        t
    }
}

} // verus!
