use sparkly::{Colour, Doc, Style};

fn show(d: &Doc, width: usize) -> String {
    d.display_opts(width, false).to_string()
}

#[test]
fn misc_1() {
    let d = Doc::from("asdf")
        .append(Doc::line().nest(2))
        .append(Doc::from("qwerty"))
        .append(Doc::line().nest(4))
        .append(Doc::from("zxcvbn"));
    assert_eq!(show(&d, 80), "asdf\n  qwerty\n    zxcvbn");
}

#[test]
fn hard_newlines_survive_any_width_and_grouping() {
    for w in [0usize, 1, 2, 3, 80] {
        assert_eq!(show(&Doc::from("a\nb"), w), "a\nb");
        assert_eq!(show(&Doc::from("a\nb").group(), w), "a\nb");
        assert_eq!(show(&Doc::from("a\nb").group().group(), w), "a\nb");
    }
}

#[test]
fn from_string_splits_every_line() {
    let d = Doc::from(String::from("one\n\nthree\n"));
    assert_eq!(show(&d, 80), "one\n\nthree\n");
    assert_eq!(show(&Doc::from(""), 80), "");
}

#[test]
fn text_is_placed_after_a_nested_break() {
    let d = Doc::from("x\ny").nest(3);
    // Nesting indents the lines after a break, not the first.
    assert_eq!(show(&d, 80), "x\n   y");
}

#[test]
fn group_is_flat_when_it_fits() {
    let d = Doc::from("a").append(Doc::space()).append(Doc::from("b")).group();
    assert_eq!(show(&d, 3), "a b");
    assert_eq!(show(&d, 80), "a b");
}

#[test]
fn group_breaks_when_it_does_not_fit() {
    let d = Doc::from("a").append(Doc::space()).append(Doc::from("b")).group();
    assert_eq!(show(&d, 2), "a\nb");
    assert_eq!(show(&d, 0), "a\nb");
}

#[test]
fn wider_width_keeps_a_fitting_group_flat() {
    let d = Doc::from("abc")
        .append(Doc::split_point())
        .append(Doc::from("def"))
        .group();
    assert_eq!(show(&d, 6), "abcdef");
    assert_eq!(show(&d, 7), "abcdef");
    assert_eq!(show(&d, 5), "abc\ndef");
}

#[test]
fn documents_without_groups_ignore_the_width() {
    let d = Doc::from("ab")
        .append(Doc::space())
        .append(Doc::from("cd"))
        .append(Doc::line().nest(1))
        .append(Doc::nbsp());
    assert_eq!(show(&d, 0), "ab\ncd\n  ");
    assert_eq!(show(&d, 100), "ab\ncd\n  ");
}

#[test]
fn line_or_collapses_to_its_string() {
    let d = Doc::from("a").append(Doc::line_or(", ")).append(Doc::from("b")).group();
    assert_eq!(show(&d, 80), "a, b");
    assert_eq!(show(&d, 1), "a\nb");
}

#[test]
fn uncollapsible_line_stays_in_a_group() {
    let d = Doc::from("a").append(Doc::line()).append(Doc::from("b")).group();
    assert_eq!(show(&d, 80), "a\nb");
}

#[test]
fn join_and_lines() {
    let items = vec![Doc::from("x"), Doc::from("y"), Doc::from("z")];
    assert_eq!(show(&Doc::from(", ").join(items), 80), "x, y, z");
    assert_eq!(show(&Doc::from(", ").join(vec![]), 80), "");
    assert_eq!(show(&Doc::from(", ").join(vec![Doc::from("only")]), 80), "only");
    let lines = Doc::lines(vec![Doc::from("1"), Doc::from("2")]);
    assert_eq!(show(&lines, 80), "1\n2");
}

#[test]
fn from_iter_concatenates() {
    let d = Doc::from_iter(vec![Doc::from("ab"), Doc::nbsp(), Doc::from("cd")]);
    assert_eq!(show(&d, 1), "ab cd");
    assert_eq!(show(&Doc::from_iter(vec![]), 1), "");
}

#[test]
fn empty_renders_nothing() {
    assert_eq!(show(&Doc::empty(), 0), "");
    assert_eq!(show(&Doc::empty().append(Doc::from("a")), 0), "a");
}

#[test]
fn styles_are_painted_only_with_color() {
    let d = Doc::from("foo").style(Style::new().bold());
    assert_eq!(d.display_opts(80, false).to_string(), "foo");
    assert_eq!(d.display_opts(80, true).to_string(), "\u{1b}[1mfoo\u{1b}[0m");
}

#[test]
fn inner_style_wins_and_outer_resumes() {
    let d = Doc::from("a")
        .append(Doc::from("b").style(Style::new().fg(Colour::Red)))
        .append(Doc::from("c"))
        .style(Style::new().bold());
    assert_eq!(
        d.display_opts(80, true).to_string(),
        "\u{1b}[1ma\u{1b}[0m\u{1b}[31mb\u{1b}[0m\u{1b}[1mc\u{1b}[0m"
    );
    assert_eq!(d.display_opts(80, false).to_string(), "abc");
}

#[test]
fn clone_renders_the_same() {
    let d = Doc::from("a").append(Doc::space()).append(Doc::from("b")).group();
    let c = d.clone();
    assert_eq!(show(&c, 1), show(&d, 1));
    assert_eq!(show(&c, 80), "a b");
}

#[test]
fn machine_limits() {
    assert!(Doc::from("abc").nest(4).fits_machine());
    assert!(!Doc::line().nest(usize::MAX).nest(1).fits_machine());
}

fn sample() -> Doc {
    Doc::from("f")
        .append(Doc::space())
        .append(Doc::from("x").append(Doc::split_point()).append(Doc::from("y")).group().nest(2))
        .append(Doc::line_or(";"))
        .append(Doc::line())
        .append(Doc::from("end").style(Style::new().italic()))
        .group()
}

#[test]
fn flatten_is_idempotent() {
    let once = sample().flatten();
    let twice = sample().flatten().flatten();
    assert_eq!(once, twice);
    assert_eq!(show(&once, 0), "f xy;\nend");
}

#[test]
fn flatten_of_group_is_flatten() {
    assert_eq!(sample().group().flatten(), sample().flatten());
    assert_eq!(Doc::from("a\nb").group().flatten(), Doc::from("a\nb").flatten());
}

#[test]
fn from_builds_text_and_hard_lines() {
    let built = Doc::from("a").append(Doc::line()).append(Doc::from("b"));
    assert_eq!(Doc::from("a\nb"), built);
    assert_eq!(Doc::from("plain"), Doc::from(String::from("plain")));
}

#[test]
fn group_prefers_flat_then_breaks_inner_groups_independently() {
    assert_eq!(show(&sample(), 80), "f xy;\nend");
    // Outer group broken; the inner group still fits on its line.
    let d = Doc::from("aaaa")
        .append(Doc::space())
        .append(Doc::from("b").append(Doc::space()).append(Doc::from("c")).group())
        .group();
    assert_eq!(show(&d, 8), "aaaa b c");
    assert_eq!(show(&d, 7), "aaaa\nb c");
    assert_eq!(show(&d, 2), "aaaa\nb\nc");
}

#[test]
fn columns_are_counted_in_bytes() {
    // "é" takes two bytes, so "é é" is five columns wide.
    let d = Doc::from("é").append(Doc::space()).append(Doc::from("é")).group();
    assert_eq!(show(&d, 5), "é é");
    assert_eq!(show(&d, 4), "é\né");
    let b = Doc::from("éé").bracket("(", ")");
    assert_eq!(show(&b, 6), "(éé)");
    assert_eq!(show(&b, 5), "(\n    éé\n)");
}

#[test]
fn unstyled_text_is_not_painted() {
    assert_eq!(Doc::from("foo").display_opts(80, true).to_string(), "foo");
    assert_eq!(Doc::empty().display_opts(80, true).to_string(), "");
}

#[test]
fn grouping_twice_renders_as_grouping_once() {
    for w in [0usize, 3, 5, 80] {
        let once = show(&sample().group(), w);
        let twice = show(&sample().group().group(), w);
        assert_eq!(once, twice);
    }
}

#[test]
fn nesting_siblings_deeply_is_within_limits() {
    let big = usize::MAX / 2 + 1;
    let d = Doc::from("a").nest(big).append(Doc::from("b").nest(big));
    assert!(d.fits_machine());
    assert_eq!(show(&d, 80), "ab");
}

#[test]
fn overrun_by_the_last_text_breaks_the_group() {
    let d = Doc::from("a").append(Doc::space()).append(Doc::from("bbbbbbbbbbbb")).group();
    assert_eq!(show(&d, 5), "a\nbbbbbbbbbbbb");
    assert_eq!(show(&d, 14), "a bbbbbbbbbbbb");
}

#[test]
fn empty_is_an_identity_for_append() {
    for w in [0usize, 5, 80] {
        for c in [false, true] {
            let plain = sample().display_opts(w, c).to_string();
            let left = Doc::empty().append(sample()).display_opts(w, c).to_string();
            let right = sample().append(Doc::empty()).display_opts(w, c).to_string();
            assert_eq!(left, plain);
            assert_eq!(right, plain);
        }
    }
}

#[test]
fn append_is_associative_up_to_rendering() {
    let a = || Doc::from("aa").append(Doc::space());
    let b = || Doc::from("bb").append(Doc::space()).group();
    let x = || Doc::from("cc");
    for w in [0usize, 4, 6, 80] {
        let l = show(&a().append(b()).append(x()).group(), w);
        let r = show(&a().append(b().append(x())).group(), w);
        assert_eq!(l, r);
    }
}

#[test]
fn string_and_str_convert_alike() {
    assert_eq!(Doc::from(String::from("x\ny z")), Doc::from("x\ny z"));
}
