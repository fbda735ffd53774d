use proptest::strategy::Strategy;
use proptest::test_runner::TestRunner;
use sparkly::{Doc, Sparkly};

#[derive(Clone, Debug)]
enum SExpr {
    Atom(String),
    List(Vec<SExpr>),
}

impl Sparkly for SExpr {
    fn to_doc(&self) -> Doc {
        match *self {
            SExpr::Atom(ref s) => Doc::from(s.to_string()),
            SExpr::List(ref l) => Doc::space()
                .join(l.iter().map(|e| e.to_doc()).collect())
                .bracket("(", ")"),
        }
    }
}

fn atom(s: &str) -> SExpr {
    SExpr::Atom(s.to_string())
}

fn list(items: &[&str]) -> SExpr {
    SExpr::List(items.iter().map(|s| atom(s)).collect())
}

fn show(e: &SExpr, width: usize) -> String {
    e.to_doc().display_opts(width, false).to_string()
}

#[test]
fn atom_renders_as_itself() {
    assert_eq!(show(&atom("foo"), 80), "foo");
}

#[test]
fn empty() {
    assert_eq!(show(&list(&[]), 80), "()");
}

#[test]
fn empty_list_at_narrow_widths() {
    assert_eq!(show(&list(&[]), 2), "()");
    assert_eq!(show(&list(&[]), 3), "()");
    // Below two columns the flat form does not fit, and the brackets break.
    assert_eq!(show(&list(&[]), 0), "(\n    \n)");
    assert_eq!(show(&list(&[]), 1), "(\n    \n)");
}

#[test]
fn not_wrapping() {
    let e = list(&["foo", "bar", "baz", "quux", "spam", "eggs"]);
    assert_eq!(show(&e, 80), "(foo bar baz quux spam eggs)");
}

#[test]
fn wrapping() {
    let e = list(&["foo", "bar", "baz", "quux", "spam", "eggs"]);
    assert_eq!(
        show(&e, 10),
        "(\n    foo\n    bar\n    baz\n    quux\n    spam\n    eggs\n)"
    );
}

#[test]
fn wrapping_exactly_at_the_width() {
    let e = list(&["ab", "cd"]);
    // "(ab cd)" is seven columns wide.
    assert_eq!(show(&e, 7), "(ab cd)");
    assert_eq!(show(&e, 6), "(\n    ab\n    cd\n)");
}

#[test]
fn nested_lists_break_outermost_first() {
    let inner = SExpr::List(vec![atom("a"), atom("b")]);
    let outer = SExpr::List(vec![atom("define"), inner]);
    assert_eq!(show(&outer, 80), "(define (a b))");
    assert_eq!(show(&outer, 10), "(\n    define\n    (a b)\n)");
}

#[test]
fn display_works() {
    let mut runner = TestRunner::default();
    let words = proptest::collection::vec("[a-zA-Z]{1,6}", 0..8);
    runner
        .run(&words.prop_map(|v| v), |v| {
            let e = SExpr::List(v.iter().map(|s| atom(s)).collect());
            let flat = format!("({})", v.join(" "));
            let out = show(&e, 80);
            assert_eq!(out, flat);
            Ok(())
        })
        .unwrap();
}
