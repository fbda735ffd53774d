use std::fmt::Display;

use proptest::strategy::{Just, Strategy};
use proptest::test_runner::TestRunner;
use sparkly::{Doc, Sparkly};

#[derive(Clone, Debug)]
enum Foo<T> {
    Yup(T),
    Nope,
}

impl<T: Display> Sparkly for Foo<T> {
    fn to_doc(&self) -> Doc {
        match *self {
            Foo::Yup(ref t) => Doc::from(t.to_string()),
            Foo::Nope => Doc::from("nope."),
        }
    }
}

impl<T: Display> Display for Foo<T> {
    fn fmt(&self, f: &mut std::fmt::Formatter) -> std::fmt::Result {
        match *self {
            Foo::Yup(ref t) => f.write_str(&t.to_string()),
            Foo::Nope => f.write_str("nope."),
        }
    }
}

#[test]
fn generic_display_works() {
    let mut runner = TestRunner::default();
    let strategy = (0i32..1000).prop_map(Foo::Yup).boxed().prop_union(Just(Foo::Nope).boxed());
    runner
        .run(&strategy, |foo| {
            let doc = foo.to_doc();
            assert_eq!(doc.display_opts(80, false).to_string(), foo.to_string());
            Ok(())
        })
        .unwrap();
}
