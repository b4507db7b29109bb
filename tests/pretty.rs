use std::fmt;

use batsmt_tseitin::pretty::{pp_string, space, str, string, text, Ctx, Pretty, WIDTH};

#[derive(Copy, Clone)]
struct Foo(u32);

impl Pretty for Foo {
    fn pp(&self, ctx: &mut Ctx) {
        ctx.text_string(self.0.to_string());
    }
}

impl fmt::Display for Foo {
    fn fmt(&self, out: &mut fmt::Formatter) -> fmt::Result {
        out.write_str(&pp_string(self, WIDTH))
    }
}

struct V<T>(Vec<T>);

impl<T: Pretty> Pretty for V<T> {
    fn pp(&self, ctx: &mut Ctx) {
        self.0.pp(ctx)
    }
}

impl<T: Pretty> fmt::Display for V<T> {
    fn fmt(&self, out: &mut fmt::Formatter) -> fmt::Result {
        out.write_str(&pp_string(self, WIDTH))
    }
}

#[test]
fn test_display() {
    let foo = Foo(42);
    let s = format!("{}", &foo);
    assert_eq!("42", s);

    let s2 = format!("{}", &V(vec![Foo(1), Foo(23), Foo(105)]));
    assert_eq!("(1 23 105)", s2);
}

#[test]
fn sexp_separator_does_not_break() {
    let v = V(vec![Foo(1111), Foo(2222), Foo(3333)]);
    let s = pp_string(&v, 6);
    assert_eq!("(1111 2222 3333)", s);
}

#[test]
fn pieces_print_their_text() {
    let mut ctx = Ctx::new();
    str("a").pp(&mut ctx);
    space().pp(&mut ctx);
    text("b").pp(&mut ctx);
    string("c".to_string()).pp(&mut ctx);
    assert_eq!("a bc", ctx.into_str(80));
}

#[test]
fn nested_boxes_indent() {
    let mut ctx = Ctx::new();
    ctx.str("f");
    ctx.open_indent(2);
    ctx.space();
    ctx.str("argument_one");
    ctx.space();
    ctx.str("argument_two");
    ctx.close();
    assert_eq!("f argument_one argument_two", ctx.into_str(80));
}

#[test]
fn nested_boxes_break_with_indent() {
    let mut ctx = Ctx::new();
    ctx.str("f");
    ctx.open_indent(2);
    ctx.space();
    ctx.str("argument_one");
    ctx.space();
    ctx.str("argument_two");
    ctx.close();
    assert_eq!("f\n  argument_one\n  argument_two", ctx.into_str(10));
}

#[test]
fn newline_always_breaks() {
    let mut ctx = Ctx::new();
    ctx.str("a");
    ctx.newline();
    ctx.str("b");
    assert_eq!("a\nb", ctx.into_str(80));
}

#[test]
fn empty_context_prints_nothing() {
    let ctx = Ctx::new();
    assert_eq!("", ctx.into_str(80));
}
