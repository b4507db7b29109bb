//! Building documents for pretty printing.
//!
//! Printing goes through a `Ctx`, which records a sequence of operations:
//! pieces of text, spaces that may break, newlines, and boxes with an
//! indentation. `Ctx::into_str` turns the sequence into a document tree and
//! lays the tree out at a given width.

use vstd::prelude::*;

verus! {

/// A document tree.
pub enum Doc {
    Nil,
    Text(String),
    Newline,
    Space,
    Append(Box<Doc>, Box<Doc>),
    Group(Box<Doc>),
    Nest(usize, Box<Doc>),
}

/// The mathematical value of a document tree.
pub enum DocV {
    Nil,
    Text(Seq<char>),
    Newline,
    Space,
    Append(Box<DocV>, Box<DocV>),
    Group(Box<DocV>),
    Nest(usize, Box<DocV>),
}

impl View for Doc {
    type V = DocV;

    open spec fn view(&self) -> DocV
        decreases self,
    {
        match self {
            Doc::Nil => DocV::Nil,
            Doc::Text(s) => DocV::Text(s@),
            Doc::Newline => DocV::Newline,
            Doc::Space => DocV::Space,
            Doc::Append(a, b) => DocV::Append(Box::new((**a)@), Box::new((**b)@)),
            Doc::Group(a) => DocV::Group(Box::new((**a)@)),
            Doc::Nest(n, a) => DocV::Nest(*n, Box::new((**a)@)),
        }
    }
}

/// The stack of partial documents used while a sequence of operations is
/// turned into a tree: one entry per open box, each the concatenation of
/// what the box has received so far.
pub struct Stack {
    pub st: Vec<Doc>,
    pub boxes: Vec<usize>,
}

/// `docs` after `d` is pushed: appended to the innermost partial document
/// when a box is open, else stacked on its own.
pub open spec fn pushed(docs: Seq<DocV>, in_box: bool, d: DocV) -> Seq<DocV> {
    if in_box && docs.len() > 0 {
        docs.drop_last().push(DocV::Append(Box::new(docs.last()), Box::new(d)))
    } else {
        docs.push(d)
    }
}

impl Stack {
    pub open spec fn docs(&self) -> Seq<DocV> {
        self.st@.map_values(|d: Doc| d@)
    }

    pub fn new() -> (r: Stack)
        ensures
            r.docs() == Seq::<DocV>::empty(),
            r.boxes@ == Seq::<usize>::empty(),
    {
        let r = Stack { st: Vec::new(), boxes: Vec::new() };
        assert(r.docs() =~= Seq::<DocV>::empty());
        r
    }

    /// Open a box indented by `n`, whose content starts with `start`.
    pub fn enter_box(&mut self, n: usize, start: Doc)
        ensures
            final(self).boxes@ == old(self).boxes@.push(n),
            final(self).docs() == old(self).docs().push(start@),
    {
        self.boxes.push(n);
        self.st.push(start);
        assert(self.docs() =~= old(self).docs().push(start@));
    }

    /// Close the innermost box and return its indentation.
    pub fn exit_box(&mut self) -> (r: usize)
        requires
            old(self).boxes@.len() > 0,
        ensures
            r == old(self).boxes@.last(),
            final(self).boxes@ == old(self).boxes@.drop_last(),
            final(self).docs() == old(self).docs(),
    {
        self.boxes.pop().unwrap()
    }

    /// Push `d` onto the stack.
    pub fn push(&mut self, d: Doc)
        ensures
            final(self).boxes@ == old(self).boxes@,
            final(self).docs() == pushed(old(self).docs(), old(self).boxes@.len() > 0, d@),
    {
        let ghost d_v = d@;
        if self.boxes.len() > 0 {
            match self.st.pop() {
                None => {
                    self.st.push(d);
                },
                Some(d2) => {
                    self.st.push(Doc::Append(Box::new(d2), Box::new(d)));
                },
            }
        } else {
            self.st.push(d);
        }
        assert(self.docs() =~= pushed(old(self).docs(), old(self).boxes@.len() > 0, d_v));
    }

    /// Remove the top of the stack.
    pub fn pop(&mut self) -> (r: Doc)
        requires
            old(self).docs().len() > 0,
        ensures
            r@ == old(self).docs().last(),
            final(self).docs() == old(self).docs().drop_last(),
            final(self).boxes@ == old(self).boxes@,
    {
        let r = self.st.pop().unwrap();
        assert(self.docs() =~= old(self).docs().drop_last());
        r
    }

    /// Remove the only document left once every box is closed.
    pub fn pop_last(&mut self) -> (r: Doc)
        requires
            old(self).boxes@.len() == 0,
            old(self).docs().len() == 1,
        ensures
            r@ == old(self).docs()[0],
            final(self).docs() == Seq::<DocV>::empty(),
            final(self).boxes@ == old(self).boxes@,
    {
        let r = self.st.pop().unwrap();
        assert(self.docs() =~= Seq::<DocV>::empty());
        r
    }
}

/// One recorded printing operation.
pub enum Op {
    Open(usize),
    Close,
    Newline,
    Space,
    Text(String),
}

/// How an operation changes the number of open boxes.
pub open spec fn delta(op: Op) -> int {
    match op {
        Op::Open(_) => 1,
        Op::Close => -1,
        _ => 0,
    }
}

/// Number of boxes left open by `ops`.
pub open spec fn depth(ops: Seq<Op>) -> int
    decreases ops.len(),
{
    if ops.len() == 0 {
        0
    } else {
        depth(ops.drop_last()) + delta(ops.last())
    }
}

/// No prefix of `ops` closes more boxes than it opened.
pub open spec fn prefix_ok(ops: Seq<Op>) -> bool {
    forall|i: int| 0 <= i <= ops.len() ==> depth(#[trigger] ops.take(i)) >= 0
}

proof fn lemma_push_op(ops: Seq<Op>, op: Op)
    requires
        prefix_ok(ops),
        depth(ops) + delta(op) >= 0,
    ensures
        prefix_ok(ops.push(op)),
        depth(ops.push(op)) == depth(ops) + delta(op),
{
    let s = ops.push(op);
    assert(s.drop_last() =~= ops);
    assert forall|i: int| 0 <= i <= s.len() implies depth(#[trigger] s.take(i)) >= 0 by {
        if i <= ops.len() {
            assert(s.take(i) =~= ops.take(i));
        } else {
            assert(s.take(i) =~= s);
        }
    }
}

proof fn lemma_depth_nonneg(ops: Seq<Op>)
    requires
        prefix_ok(ops),
    ensures
        depth(ops) >= 0,
{
    assert(ops.take(ops.len() as int) =~= ops);
}

/// The document that a leaf operation stands for.
pub open spec fn leaf_doc(op: Op) -> DocV {
    match op {
        Op::Text(s) => DocV::Text(s@),
        Op::Newline => DocV::Newline,
        _ => DocV::Space,
    }
}

/// The document a closed box makes of its content `d`.
pub open spec fn boxed(n: usize, d: DocV) -> DocV {
    if n > 0 {
        DocV::Nest(n, Box::new(DocV::Group(Box::new(d))))
    } else {
        DocV::Group(Box::new(d))
    }
}

/// One step of the stack machine on (partial documents, open boxes).
pub open spec fn step(state: (Seq<DocV>, Seq<usize>), op: Op) -> (Seq<DocV>, Seq<usize>) {
    let (docs, bs) = state;
    match op {
        Op::Open(n) => (docs.push(DocV::Nil), bs.push(n)),
        Op::Close => (
            pushed(docs.drop_last(), bs.len() > 1, boxed(bs.last(), docs.last())),
            bs.drop_last(),
        ),
        _ => (pushed(docs, bs.len() > 0, leaf_doc(op)), bs),
    }
}

/// The stack machine run on `ops` from an empty stack.
pub open spec fn run(ops: Seq<Op>) -> (Seq<DocV>, Seq<usize>)
    decreases ops.len(),
{
    if ops.len() == 0 {
        (Seq::empty(), Seq::empty())
    } else {
        step(run(ops.drop_last()), ops.last())
    }
}

/// The operations of a context wrapped in a top-level box.
pub open spec fn wrapped(ops: Seq<Op>) -> Seq<Op> {
    seq![Op::Open(0)] + ops + seq![Op::Close]
}

/// The document a balanced sequence of operations stands for.
pub open spec fn doc_of(ops: Seq<Op>) -> DocV {
    run(wrapped(ops)).0[0]
}

/// Default printing width.
pub const WIDTH: usize = 80;

/// The text that laying out `d` at width `width` gives.
pub uninterp spec fn layout_of(d: DocV, width: usize) -> Seq<char>;

/// A document of the pretty crate, held only to be laid out.
#[verifier::external_type_specification]
#[verifier::external_body]
#[verifier::reject_recursive_types(A)]
pub struct ExRcDoc<'a, A>(pretty::RcDoc<'a, A>);

/// Relies on pretty's `RcDoc` constructors (`nil`, `text`, `hardline`,
/// `line`, `append`, `group`, `nest`): builds the same tree in that crate.
#[verifier::external_body]
fn to_rc_doc(d: &Doc) -> pretty::RcDoc<'static, ()> {
    match d {
        Doc::Nil => pretty::RcDoc::nil(),
        Doc::Text(s) => pretty::RcDoc::text(s.clone()),
        Doc::Newline => pretty::RcDoc::hardline(),
        Doc::Space => pretty::RcDoc::line(),
        Doc::Append(a, b) => to_rc_doc(a).append(to_rc_doc(b)),
        Doc::Group(a) => to_rc_doc(a).group(),
        Doc::Nest(n, a) => to_rc_doc(a).nest(*n as isize),
    }
}

/// Relies on pretty's `Doc::pretty` (Wadler-style layout): the text depends on
/// the document and the width alone.
#[verifier::external_body]
fn render(d: &Doc, width: usize) -> (r: String)
    ensures
        r@ == layout_of(d@, width),
{
    format!("{}", to_rc_doc(d).pretty(width))
}

/// The context used to print objects: the operations recorded so far.
pub struct Ctx {
    ops: Vec<Op>,
}

impl Ctx {
    pub closed spec fn ops_seq(&self) -> Seq<Op> {
        self.ops@
    }

    /// No box is closed that was not opened.
    pub open spec fn ok(&self) -> bool {
        prefix_ok(self.ops_seq())
    }

    /// Number of boxes currently open.
    pub open spec fn open_boxes(&self) -> int {
        depth(self.ops_seq())
    }

    /// A context ready to be laid out: every box is closed.
    pub open spec fn wf(&self) -> bool {
        self.ok() && self.open_boxes() == 0
    }

    /// A new, empty printing context.
    pub fn new() -> (r: Ctx)
        ensures
            r.wf(),
            r.ops_seq() == Seq::<Op>::empty(),
    {
        let r = Ctx { ops: Vec::new() };
        assert forall|i: int| 0 <= i <= r.ops@.len() implies depth(#[trigger] r.ops@.take(i)) >= 0 by {
            assert(r.ops@.take(i).len() == 0);
        }
        r
    }

    fn push_(&mut self, op: Op)
        requires
            old(self).ok(),
            delta(op) < 0 ==> old(self).open_boxes() > 0,
        ensures
            final(self).ops_seq() == old(self).ops_seq().push(op),
            final(self).ops_seq().drop_last() == old(self).ops_seq(),
            final(self).ops_seq().last() == op,
            final(self).ok(),
            final(self).open_boxes() == old(self).open_boxes() + delta(op),
    {
        proof {
            lemma_depth_nonneg(self.ops@);
            lemma_push_op(self.ops@, op);
        }
        self.ops.push(op);
        assert(self.ops@.drop_last() =~= old(self).ops@);
    }

    /// Print a static string.
    pub fn str(&mut self, s: &'static str)
        requires
            old(self).ok(),
        ensures
            pushed_text(old(self).ops_seq(), final(self).ops_seq(), s@),
            final(self).ok(),
            final(self).open_boxes() == old(self).open_boxes(),
    {
        self.push_(Op::Text(s.to_owned()));
    }

    /// Print a string.
    pub fn text(&mut self, s: &str)
        requires
            old(self).ok(),
        ensures
            pushed_text(old(self).ops_seq(), final(self).ops_seq(), s@),
            final(self).ok(),
            final(self).open_boxes() == old(self).open_boxes(),
    {
        self.push_(Op::Text(s.to_owned()));
    }

    /// Print an owned string.
    pub fn text_string(&mut self, s: String)
        requires
            old(self).ok(),
        ensures
            pushed_text(old(self).ops_seq(), final(self).ops_seq(), s@),
            final(self).ok(),
            final(self).open_boxes() == old(self).open_boxes(),
    {
        self.push_(Op::Text(s));
    }

    /// Print a newline.
    pub fn newline(&mut self)
        requires
            old(self).ok(),
        ensures
            final(self).ops_seq() == old(self).ops_seq().push(Op::Newline),
            final(self).ok(),
            final(self).open_boxes() == old(self).open_boxes(),
    {
        self.push_(Op::Newline);
    }

    /// Print a space, or a line break where the enclosing box does not fit.
    pub fn space(&mut self)
        requires
            old(self).ok(),
        ensures
            final(self).ops_seq() == old(self).ops_seq().push(Op::Space),
            final(self).ok(),
            final(self).open_boxes() == old(self).open_boxes(),
    {
        self.push_(Op::Space);
    }

    /// Open a box whose line breaks indent by `n`.
    pub fn open_indent(&mut self, n: usize)
        requires
            old(self).ok(),
        ensures
            final(self).ops_seq() == old(self).ops_seq().push(Op::Open(n)),
            final(self).ok(),
            final(self).open_boxes() == old(self).open_boxes() + 1,
    {
        self.push_(Op::Open(n));
    }

    /// Close the innermost open box.
    pub fn close(&mut self)
        requires
            old(self).ok(),
            old(self).open_boxes() > 0,
        ensures
            final(self).ops_seq() == old(self).ops_seq().push(Op::Close),
            final(self).ok(),
            final(self).open_boxes() == old(self).open_boxes() - 1,
    {
        self.push_(Op::Close);
    }

    /// Print `x`.
    pub fn pp<T: Pretty>(&mut self, x: &T)
        requires
            old(self).ok(),
        ensures
            final(self).ok(),
            final(self).open_boxes() == old(self).open_boxes(),
    {
        x.pp(self);
    }

    /// Print the elements of `arr` with `sep` in between.
    pub fn array<Sep: Pretty, U: Pretty>(&mut self, sep: &Sep, arr: &[U])
        requires
            old(self).ok(),
        ensures
            final(self).ok(),
            final(self).open_boxes() == old(self).open_boxes(),
    {
        let mut i: usize = 0;
        while i < arr.len()
            invariant
                self.ok(),
                self.open_boxes() == old(self).open_boxes(),
            decreases arr@.len() - i,
        {
            if i > 0 {
                sep.pp(self);
            }
            arr[i].pp(self);
            i += 1;
        }
    }

    /// Print the elements of `arr` as an S-expression: in parentheses,
    /// separated by the text `" "`, in a box indented by one.
    pub fn sexp<U: Pretty>(&mut self, arr: &[U])
        requires
            old(self).ok(),
        ensures
            final(self).ok(),
            final(self).open_boxes() == old(self).open_boxes(),
    {
        self.str("(");
        self.open_indent(1);
        let mut i: usize = 0;
        while i < arr.len()
            invariant
                self.ok(),
                self.open_boxes() == old(self).open_boxes() + 1,
            decreases arr@.len() - i,
        {
            if i > 0 {
                self.str(" ");
            }
            arr[i].pp(self);
            i += 1;
        }
        self.close();
        self.str(")");
    }

    /// Lay the recorded operations out at width `width`, in a top-level box.
    pub fn into_str(self, width: usize) -> (r: String)
        requires
            self.wf(),
        ensures
            r@ == layout_of(doc_of(self.ops_seq()), width),
    {
        let ghost ops = self.ops@;
        let ghost w = wrapped(ops);
        let mut stack = Stack::new();
        proof {
            assert(w.take(1).drop_last() =~= Seq::<Op>::empty());
            assert(w.take(1).last() == Op::Open(0));
            assert(run(w.take(1)) == step(run(Seq::<Op>::empty()), Op::Open(0)));
        }
        stack.enter_box(0, Doc::Nil);
        let mut i: usize = 0;
        while i < self.ops.len()
            invariant
                ops == self.ops@,
                w == wrapped(ops),
                prefix_ok(ops),
                depth(ops) == 0,
                i <= ops.len(),
                (stack.docs(), stack.boxes@) == run(w.take(i as int + 1)),
                stack.boxes@.len() == depth(ops.take(i as int)) + 1,
                stack.docs().len() == stack.boxes@.len(),
            decreases ops.len() - i,
        {
            proof {
                assert(w.take(i as int + 2).drop_last() =~= w.take(i as int + 1));
                assert(w.take(i as int + 2).last() == ops[i as int]);
                assert(run(w.take(i as int + 2)) == step(run(w.take(i as int + 1)), ops[i as int]));
                assert(ops.take(i as int + 1).drop_last() =~= ops.take(i as int));
                assert(ops.take(i as int + 1).last() == ops[i as int]);
                assert(depth(ops.take(i as int + 1)) >= 0);
            }
            match &self.ops[i] {
                Op::Open(n) => {
                    stack.enter_box(*n, Doc::Nil);
                },
                Op::Close => {
                    let n = stack.exit_box();
                    let d = stack.pop();
                    let b = Doc::Group(Box::new(d));
                    assert(b@ == DocV::Group(Box::new(d@)));
                    if n > 0 {
                        let nb = Doc::Nest(n, Box::new(b));
                        assert(nb@ == boxed(n, d@));
                        stack.push(nb);
                    } else {
                        stack.push(b);
                    }
                },
                Op::Newline => {
                    stack.push(Doc::Newline);
                },
                Op::Space => {
                    stack.push(Doc::Space);
                },
                Op::Text(s) => {
                    let c = s.clone();
                    assert(c@ == s@);
                    stack.push(Doc::Text(c));
                },
            }
            i += 1;
        }
        proof {
            assert(ops.take(ops.len() as int) =~= ops);
            assert(w.take(ops.len() as int + 2) =~= w);
            assert(w.take(ops.len() as int + 2).drop_last() =~= w.take(ops.len() as int + 1));
            assert(w.last() == Op::Close);
            assert(run(w) == step(run(w.take(ops.len() as int + 1)), Op::Close));
        }
        let n = stack.exit_box();
        let d = stack.pop();
        let b = Doc::Group(Box::new(d));
        assert(b@ == DocV::Group(Box::new(d@)));
        if n > 0 {
            let nb = Doc::Nest(n, Box::new(b));
            assert(nb@ == boxed(n, d@));
            stack.push(nb);
        } else {
            stack.push(b);
        }
        assert((stack.docs(), stack.boxes@) == run(w));
        let top = stack.pop_last();
        render(&top, width)
    }
}

/// `new` is `old` with one more piece of text, which reads `s`.
pub open spec fn pushed_text(old: Seq<Op>, new: Seq<Op>, s: Seq<char>) -> bool {
    &&& new.len() == old.len() + 1
    &&& new.drop_last() == old
    &&& new.last() is Text
    &&& new.last()->Text_0@ == s
}

/// A value that can be pretty printed.
pub trait Pretty {
    /// Print `self` into `ctx`, leaving the same boxes open.
    fn pp(&self, ctx: &mut Ctx)
        requires
            old(ctx).ok(),
        ensures
            final(ctx).ok(),
            final(ctx).open_boxes() == old(ctx).open_boxes(),
    ;
}

/// A leaf of a document, printable on its own.
pub enum Piece {
    Newline,
    Space,
    Text(String),
}

impl Pretty for Piece {
    fn pp(&self, ctx: &mut Ctx) {
        match self {
            Piece::Newline => ctx.newline(),
            Piece::Space => ctx.space(),
            Piece::Text(s) => ctx.text_string(s.clone()),
        }
    }
}

impl Pretty for String {
    fn pp(&self, ctx: &mut Ctx) {
        ctx.text_string(self.clone());
    }
}

/// Vectors print as S-expressions.
impl<T: Pretty> Pretty for Vec<T> {
    fn pp(&self, ctx: &mut Ctx) {
        ctx.sexp(self.as_slice());
    }
}

/// Display a newline.
pub fn newline() -> (r: Piece)
    ensures
        r is Newline,
{
    Piece::Newline
}

/// Display a space, or a line break where the enclosing box does not fit.
pub fn space() -> (r: Piece)
    ensures
        r is Space,
{
    Piece::Space
}

/// Display a static string.
pub fn str(s: &'static str) -> (r: Piece)
    ensures
        r is Text && r->Text_0@ == s@,
{
    Piece::Text(s.to_owned())
}

/// Display an owned string.
pub fn string(s: String) -> (r: Piece)
    ensures
        r is Text && r->Text_0@ == s@,
{
    Piece::Text(s)
}

/// Display a string.
pub fn text(s: &str) -> (r: Piece)
    ensures
        r is Text && r->Text_0@ == s@,
{
    Piece::Text(s.to_owned())
}

/// Print `x` at width `width`.
pub fn pp_string<T: Pretty>(x: &T, width: usize) -> (r: String)
    ensures
        exists|c: Ctx| c.wf() && r@ == layout_of(doc_of(c.ops_seq()), width),
{
    let mut ctx = Ctx::new();
    x.pp(&mut ctx);
    let ghost c0 = ctx;
    let r = ctx.into_str(width);
    assert(c0.wf() && r@ == layout_of(doc_of(c0.ops_seq()), width));
    r
}

} // verus!
