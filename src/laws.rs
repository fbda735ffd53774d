use vstd::prelude::*;
use crate::ctors::{
    bracket_tree, first_newline, group_tree, lemma_first_newline_bound, lemma_text_doc_no_newline,
    text_doc,
};
use crate::doc::{Tree, byte_len, lemma_byte_len_concat};
use crate::layout::{Event, Frame, best, fits};
use crate::render::{layout, output, rendered, spaces};

verus! {

/// Whether a document holds no line break and no alternative: its layout is
/// a run of text, whatever the width.
pub open spec fn no_break(d: Tree) -> bool
    decreases d,
{
    match d {
        Tree::Text(_) => true,
        Tree::Append(x, y) => no_break(*x) && no_break(*y),
        Tree::Nest(_, x) => no_break(*x),
        Tree::Style(_, x) => no_break(*x),
        _ => false,
    }
}

/// Whether a document holds no alternative, so that no choice depends on the width.
pub open spec fn no_choice(d: Tree) -> bool
    decreases d,
{
    match d {
        Tree::Alt(_, _) => false,
        Tree::Append(x, y) => no_choice(*x) && no_choice(*y),
        Tree::Nest(_, x) => no_choice(*x),
        Tree::Style(_, x) => no_choice(*x),
        _ => true,
    }
}

/// The text events of a document without breaks, under style `sty`.
pub open spec fn flat_events(d: Tree, sty: ansi_term::Style) -> Seq<Event>
    decreases d,
{
    match d {
        Tree::Text(s) => seq![Event::Text(s, sty)],
        Tree::Append(x, y) => flat_events(*x, sty) + flat_events(*y, sty),
        Tree::Nest(_, x) => flat_events(*x, sty),
        Tree::Style(s, x) => flat_events(*x, s),
        _ => seq![],
    }
}

/// The text of a document without breaks.
pub open spec fn flat_text(d: Tree) -> Seq<char>
    decreases d,
{
    match d {
        Tree::Text(s) => s,
        Tree::Append(x, y) => flat_text(*x) + flat_text(*y),
        Tree::Nest(_, x) => flat_text(*x),
        Tree::Style(_, x) => flat_text(*x),
        _ => seq![],
    }
}

/// The total length of the text events in a sequence.
pub open spec fn events_width(evs: Seq<Event>) -> nat
    decreases evs.len(),
{
    if evs.len() == 0 {
        0
    } else {
        events_width(evs.drop_last()) + match evs.last() {
            Event::Text(s, _) => byte_len(s),
            Event::Line(_) => 0,
        }
    }
}

/// Whether every event of a sequence is text.
pub open spec fn all_text(evs: Seq<Event>) -> bool {
    forall|j: int| 0 <= j < evs.len() ==> #[trigger] evs[j] is Text
}

/// A document inside `n` groups.
pub open spec fn grouped(d: Tree, n: nat) -> Tree
    decreases n,
{
    if n == 0 {
        d
    } else {
        group_tree(grouped(d, (n - 1) as nat))
    }
}

/// Flattening twice gives what flattening once gives.
pub proof fn lemma_flatten_idempotent(d: Tree)
    ensures
        d.flatten().flatten() == d.flatten(),
    decreases d,
{
    match d {
        Tree::Append(x, y) => {
            lemma_flatten_idempotent(*x);
            lemma_flatten_idempotent(*y);
        },
        Tree::Nest(_, x) => lemma_flatten_idempotent(*x),
        Tree::Alt(x, _) => lemma_flatten_idempotent(*x),
        Tree::Style(_, x) => lemma_flatten_idempotent(*x),
        _ => {},
    }
}

/// Grouping does not change the flat form: flattening a group gives the
/// flattened document.
pub proof fn lemma_flatten_group(d: Tree)
    ensures
        group_tree(d).flatten() == d.flatten(),
{
    lemma_flatten_idempotent(d);
}

proof fn lemma_push2<A>(a: A, b: A)
    ensures
        seq![a].drop_last() == Seq::<A>::empty(),
        seq![a].last() == a,
        Seq::<A>::empty().push(a) == seq![a],
        seq![b].push(a).last() == a,
        seq![b].push(a).drop_last() == seq![b],
{
    assert(seq![a].drop_last() =~= Seq::<A>::empty());
    assert(Seq::<A>::empty().push(a) =~= seq![a]);
    assert(seq![b].push(a).drop_last() =~= seq![b]);
}

proof fn lemma_push_pop(st: Seq<Frame>, f: Frame)
    ensures
        st.push(f).last() == f,
        st.push(f).drop_last() == st,
        st.push(f).len() > 0,
{
    assert(st.push(f).drop_last() =~= st);
}

/// A document without breaks lays out as its text events, and moves the
/// column by its text length.
pub proof fn lemma_best_no_break(w: nat, k: nat, rest: Seq<Frame>, i: nat, sty: ansi_term::Style, d: Tree)
    requires
        no_break(d),
    ensures
        best(w, k, rest.push((i, sty, d))) == flat_events(d, sty) + best(
            w,
            k + byte_len(flat_text(d)),
            rest,
        ),
    decreases d,
{
    let st = rest.push((i, sty, d));
    lemma_push_pop(rest, (i, sty, d));
    match d {
        Tree::Text(s) => {},
        Tree::Append(x, y) => {
            let r1 = rest.push((i, sty, *y));
            lemma_push_pop(r1, (i, sty, *x));
            lemma_best_no_break(w, k, r1, i, sty, *x);
            lemma_best_no_break(w, k + byte_len(flat_text(*x)), rest, i, sty, *y);
            lemma_byte_len_concat(flat_text(*x), flat_text(*y));
            assert(flat_events(d, sty) + best(w, k + byte_len(flat_text(d)), rest) =~= flat_events(
                *x,
                sty,
            ) + (flat_events(*y, sty) + best(w, k + byte_len(flat_text(d)), rest)));
        },
        Tree::Nest(j, x) => {
            lemma_push_pop(rest, (i + j, sty, *x));
            lemma_best_no_break(w, k, rest, i + j, sty, *x);
        },
        Tree::Style(s, x) => {
            lemma_push_pop(rest, (i, s, *x));
            lemma_best_no_break(w, k, rest, i, s, *x);
        },
        _ => {},
    }
}

/// The text events of a document without breaks are text, as long in all as its text.
pub proof fn lemma_flat_events(d: Tree, sty: ansi_term::Style)
    requires
        no_break(d),
    ensures
        all_text(flat_events(d, sty)),
        events_width(flat_events(d, sty)) == byte_len(flat_text(d)),
        output(flat_events(d, sty), false) == flat_text(d),
    decreases d,
{
    match d {
        Tree::Text(s) => {
            let e = seq![Event::Text(s, sty)];
            assert(e.drop_last() =~= Seq::<Event>::empty());
            assert(events_width(e.drop_last()) == 0);
            assert(output(e.drop_last(), false) == Seq::<char>::empty());
            assert(output(e, false) =~= s);
        },
        Tree::Append(x, y) => {
            lemma_flat_events(*x, sty);
            lemma_flat_events(*y, sty);
            let a = flat_events(*x, sty);
            let b = flat_events(*y, sty);
            lemma_events_width_append(a, b);
            lemma_output_append(a, b, false);
            lemma_byte_len_concat(flat_text(*x), flat_text(*y));
            assert forall|j: int| 0 <= j < (a + b).len() implies #[trigger] (a + b)[j] is Text by {
                if j < a.len() {
                    assert((a + b)[j] == a[j]);
                } else {
                    assert((a + b)[j] == b[j - a.len()]);
                }
            }
        },
        Tree::Nest(_, x) => lemma_flat_events(*x, sty),
        Tree::Style(s, x) => lemma_flat_events(*x, s),
        _ => {},
    }
}

pub proof fn lemma_events_width_append(a: Seq<Event>, b: Seq<Event>)
    ensures
        events_width(a + b) == events_width(a) + events_width(b),
    decreases b.len(),
{
    if b.len() == 0 {
        assert(a + b =~= a);
    } else {
        assert((a + b).drop_last() =~= a + b.drop_last());
        assert((a + b).last() == b.last());
        lemma_events_width_append(a, b.drop_last());
    }
}

/// The text written for two sequences of events is the text of each, in order.
pub proof fn lemma_output_append(a: Seq<Event>, b: Seq<Event>, color: bool)
    ensures
        output(a + b, color) == output(a, color) + output(b, color),
    decreases b.len(),
{
    if b.len() == 0 {
        assert(a + b =~= a);
        assert(output(a, color) + output(b, color) =~= output(a, color));
    } else {
        assert((a + b).drop_last() =~= a + b.drop_last());
        assert((a + b).last() == b.last());
        lemma_output_append(a, b.drop_last(), color);
        assert(output(a + b, color) =~= output(a, color) + output(b, color));
    }
}

/// Text events fit from column `k` exactly when the column after them fits
/// together with what follows them.
pub proof fn lemma_fits_text_prefix(w: nat, k: nat, a: Seq<Event>, b: Seq<Event>)
    requires
        all_text(a),
    ensures
        fits(w, k, a + b) == fits(w, k + events_width(a), b),
    decreases a.len(),
{
    if a.len() == 0 {
        assert(a + b =~= b);
    } else {
        let s = a[0]->Text_0;
        assert((a + b)[0] == a[0]);
        assert((a + b).drop_first() =~= a.drop_first() + b);
        assert(all_text(a.drop_first())) by {
            assert forall|j: int| 0 <= j < a.drop_first().len() implies #[trigger] a.drop_first()[j] is Text by {
                assert(a.drop_first()[j] == a[j + 1]);
            }
        }
        lemma_fits_text_prefix(w, k + byte_len(s), a.drop_first(), b);
        lemma_events_width_first(a);
        if fits(w, k + events_width(a), b) {
            assert(k + events_width(a) <= w);
        }
    }
}

proof fn lemma_events_width_first(a: Seq<Event>)
    requires
        a.len() > 0,
        a[0] is Text,
    ensures
        events_width(a) == byte_len(a[0]->Text_0) + events_width(a.drop_first()),
{
    assert(a =~= seq![a[0]] + a.drop_first());
    lemma_events_width_append(seq![a[0]], a.drop_first());
    assert(seq![a[0]].drop_last() =~= Seq::<Event>::empty());
    assert(events_width(seq![a[0]].drop_last()) == 0);
    assert(events_width(seq![a[0]]) == byte_len(a[0]->Text_0));
}

/// Fitting is monotonic in the width: what fits a width fits any wider one.
pub proof fn lemma_fits_monotone(w1: nat, w2: nat, k: nat, evs: Seq<Event>)
    requires
        w1 <= w2,
        fits(w1, k, evs),
    ensures
        fits(w2, k, evs),
    decreases evs.len(),
{
    if evs.len() > 0 {
        if let Event::Text(s, _) = evs[0] {
            lemma_fits_monotone(w1, w2, k + byte_len(s), evs.drop_first());
        }
    }
}

/// Widening keeps fitting: if the layout of a work list fits width `w1` up
/// to its first line break, its layout at any wider `w2` fits `w2`.
pub proof fn lemma_fits_best_monotone(w1: nat, w2: nat, k: nat, st: Seq<Frame>)
    requires
        w1 <= w2,
        fits(w1, k, best(w1, k, st)),
    ensures
        fits(w2, k, best(w2, k, st)),
    decreases crate::layout::stack_size(st),
{
    if st.len() > 0 {
        let (i, sty, d) = st.last();
        let rest = st.drop_last();
        crate::layout::lemma_stack_push(rest, (i, sty, d));
        assert(rest.push((i, sty, d)) =~= st);
        match d {
            Tree::Append(x, y) => {
                let r1 = rest.push((i, sty, *y));
                crate::layout::lemma_stack_push(rest, (i, sty, *y));
                crate::layout::lemma_stack_push(r1, (i, sty, *x));
                lemma_fits_best_monotone(w1, w2, k, r1.push((i, sty, *x)));
            },
            Tree::Nest(j, x) => {
                crate::layout::lemma_stack_push(rest, (i + j, sty, *x));
                lemma_fits_best_monotone(w1, w2, k, rest.push((i + j, sty, *x)));
            },
            Tree::Style(s, x) => {
                crate::layout::lemma_stack_push(rest, (i, s, *x));
                lemma_fits_best_monotone(w1, w2, k, rest.push((i, s, *x)));
            },
            Tree::Text(s) => {
                let t1 = best(w1, k + byte_len(s), rest);
                let t2 = best(w2, k + byte_len(s), rest);
                assert((seq![Event::Text(s, sty)] + t1)[0] == Event::Text(s, sty));
                assert((seq![Event::Text(s, sty)] + t1).drop_first() =~= t1);
                assert((seq![Event::Text(s, sty)] + t2)[0] == Event::Text(s, sty));
                assert((seq![Event::Text(s, sty)] + t2).drop_first() =~= t2);
                lemma_fits_best_monotone(w1, w2, k + byte_len(s), rest);
            },
            Tree::Line(_) => {
                let t2 = best(w2, i, rest);
                assert((seq![Event::Line(i)] + t2)[0] == Event::Line(i));
            },
            Tree::Alt(x, y) => {
                let sx = rest.push((i, sty, *x));
                let sy = rest.push((i, sty, *y));
                crate::layout::lemma_stack_push(rest, (i, sty, *x));
                crate::layout::lemma_stack_push(rest, (i, sty, *y));
                if fits(w1, k, best(w1, k, sx)) {
                    lemma_fits_best_monotone(w1, w2, k, sx);
                } else {
                    lemma_fits_best_monotone(w1, w2, k, sy);
                }
            },
        }
    }
}

/// An alternative laid out flat at width `w1`, because its flat
/// continuation fits, is laid out flat at any wider `w2` too.
pub proof fn lemma_flat_stays_flat(
    w1: nat,
    w2: nat,
    k: nat,
    rest: Seq<Frame>,
    i: nat,
    sty: ansi_term::Style,
    x: Tree,
    y: Tree,
)
    requires
        w1 <= w2,
        fits(w1, k, best(w1, k, rest.push((i, sty, x)))),
    ensures
        best(w1, k, rest.push((i, sty, Tree::Alt(Box::new(x), Box::new(y))))) == best(
            w1,
            k,
            rest.push((i, sty, x)),
        ),
        best(w2, k, rest.push((i, sty, Tree::Alt(Box::new(x), Box::new(y))))) == best(
            w2,
            k,
            rest.push((i, sty, x)),
        ),
{
    let a = Tree::Alt(Box::new(x), Box::new(y));
    lemma_push_pop(rest, (i, sty, a));
    lemma_fits_best_monotone(w1, w2, k, rest.push((i, sty, x)));
}

/// Whether no document on a work list holds an alternative.
pub open spec fn stack_no_choice(st: Seq<Frame>) -> bool {
    forall|j: int| 0 <= j < st.len() ==> no_choice(#[trigger] st[j].2)
}

/// A work list without alternatives lays out the same at every width.
pub proof fn lemma_best_width_free(w1: nat, w2: nat, k: nat, st: Seq<Frame>)
    requires
        stack_no_choice(st),
    ensures
        best(w1, k, st) == best(w2, k, st),
    decreases crate::layout::stack_size(st),
{
    if st.len() > 0 {
        let (i, sty, d) = st.last();
        let rest = st.drop_last();
        assert(st[st.len() - 1] == st.last());
        assert(stack_no_choice(rest)) by {
            assert forall|j: int| 0 <= j < rest.len() implies no_choice(#[trigger] rest[j].2) by {
                assert(rest[j] == st[j]);
            }
        }
        crate::layout::lemma_stack_push(rest, (i, sty, d));
        assert(rest.push((i, sty, d)) =~= st);
        match d {
            Tree::Append(x, y) => {
                let r1 = rest.push((i, sty, *y));
                let r2 = r1.push((i, sty, *x));
                crate::layout::lemma_stack_push(rest, (i, sty, *y));
                crate::layout::lemma_stack_push(r1, (i, sty, *x));
                assert(stack_no_choice(r2)) by {
                    assert forall|j: int| 0 <= j < r2.len() implies no_choice(#[trigger] r2[j].2) by {
                        if j < rest.len() {
                            assert(r2[j] == rest[j]);
                        }
                    }
                }
                lemma_best_width_free(w1, w2, k, r2);
            },
            Tree::Nest(j, x) => {
                let r1 = rest.push((i + j, sty, *x));
                crate::layout::lemma_stack_push(rest, (i + j, sty, *x));
                assert(stack_no_choice(r1)) by {
                    assert forall|jj: int| 0 <= jj < r1.len() implies no_choice(#[trigger] r1[jj].2) by {
                        if jj < rest.len() {
                            assert(r1[jj] == rest[jj]);
                        }
                    }
                }
                lemma_best_width_free(w1, w2, k, r1);
            },
            Tree::Style(s, x) => {
                let r1 = rest.push((i, s, *x));
                crate::layout::lemma_stack_push(rest, (i, s, *x));
                assert(stack_no_choice(r1)) by {
                    assert forall|jj: int| 0 <= jj < r1.len() implies no_choice(#[trigger] r1[jj].2) by {
                        if jj < rest.len() {
                            assert(r1[jj] == rest[jj]);
                        }
                    }
                }
                lemma_best_width_free(w1, w2, k, r1);
            },
            Tree::Text(s) => {
                lemma_best_width_free(w1, w2, k + byte_len(s), rest);
            },
            Tree::Line(_) => {
                lemma_best_width_free(w1, w2, i, rest);
            },
            Tree::Alt(_, _) => {},
        }
    }
}

/// A document without alternatives, built from text, hard and soft lines,
/// nesting and styles, is laid out the same at every width.
pub proof fn lemma_layout_width_free(w1: nat, w2: nat, d: Tree, sty: ansi_term::Style)
    requires
        no_choice(d),
    ensures
        layout(w1, d, sty) == layout(w2, d, sty),
{
    lemma_best_width_free(w1, w2, 0, seq![(0nat, sty, d)]);
}

/// The events of a string's document: its lines as text, each but the last
/// followed by a break to indent `i`.
pub open spec fn text_events(s: Seq<char>, sty: ansi_term::Style, i: nat) -> Seq<Event>
    decreases s.len(),
{
    let n = first_newline(s);
    if n >= s.len() {
        seq![Event::Text(s, sty)]
    } else {
        seq![Event::Text(s.take(n as int), sty), Event::Line(i)] + text_events(
            s.skip((n + 1) as int),
            sty,
            i,
        )
    }
}

proof fn lemma_text_doc_layout(w: nat, k: nat, i: nat, sty: ansi_term::Style, s: Seq<char>)
    ensures
        best(w, k, seq![(i, sty, text_doc(s))]) == text_events(s, sty, i),
    decreases s.len(),
{
    let e: Seq<Frame> = Seq::empty();
    lemma_first_newline_bound(s);
    let n = first_newline(s);
    lemma_push2((i, sty, text_doc(s)), (i, sty, text_doc(s)));
    if n >= s.len() {
        lemma_push_pop(e, (i, sty, Tree::Text(s)));
        assert(e.push((i, sty, Tree::Text(s))) =~= seq![(i, sty, text_doc(s))]);
        assert(best(w, k + byte_len(s), e) == Seq::<Event>::empty());
        assert(text_doc(s) == Tree::Text(s));
        assert(best(w, k, seq![(i, sty, text_doc(s))]) == seq![Event::Text(s, sty)] + best(w, k + byte_len(s), e));
        assert(seq![Event::Text(s, sty)] + Seq::<Event>::empty() =~= seq![Event::Text(s, sty)]);
    } else {
        let p = s.take(n as int);
        let t = s.skip((n + 1) as int);
        let first = Tree::Append(Box::new(Tree::Text(p)), Box::new(Tree::Line(None)));
        let r1 = seq![(i, sty, text_doc(t))];
        let r2 = r1.push((i, sty, first));
        lemma_push_pop(e, (i, sty, text_doc(s)));
        assert(e.push((i, sty, text_doc(s))) =~= seq![(i, sty, text_doc(s))]);
        lemma_push_pop(e, (i, sty, text_doc(t)));
        assert(e.push((i, sty, text_doc(t))) =~= r1);
        lemma_push_pop(r1, (i, sty, first));
        let r3 = r1.push((i, sty, Tree::Line(None)));
        let r4 = r3.push((i, sty, Tree::Text(p)));
        lemma_push_pop(r1, (i, sty, Tree::Line(None)));
        lemma_push_pop(r3, (i, sty, Tree::Text(p)));
        lemma_text_doc_layout(w, i, i, sty, t);
        assert(text_doc(s) == Tree::Append(Box::new(first), Box::new(text_doc(t))));
        assert(best(w, k, seq![(i, sty, text_doc(s))]) == best(w, k, r2));
        assert(best(w, k, r2) == best(w, k, r4));
        assert(best(w, k, r4) == seq![Event::Text(p, sty)] + best(w, k + byte_len(p), r3));
        assert(best(w, k + byte_len(p), r3) == seq![Event::Line(i)] + best(w, i, r1));
        assert(seq![Event::Text(p, sty)] + (seq![Event::Line(i)] + text_events(t, sty, i))
            =~= seq![Event::Text(p, sty), Event::Line(i)] + text_events(t, sty, i));
    }
}

proof fn lemma_text_events_output(s: Seq<char>, sty: ansi_term::Style)
    ensures
        output(text_events(s, sty, 0), false) == s,
    decreases s.len(),
{
    lemma_first_newline_bound(s);
    let n = first_newline(s);
    if n >= s.len() {
        let e = seq![Event::Text(s, sty)];
        assert(e.drop_last() =~= Seq::<Event>::empty());
        assert(output(e.drop_last(), false) == Seq::<char>::empty());
        assert(output(e, false) =~= s);
    } else {
        let p = s.take(n as int);
        let t = s.skip((n + 1) as int);
        let head = seq![Event::Text(p, sty), Event::Line(0)];
        lemma_text_events_output(t, sty);
        lemma_output_append(head, text_events(t, sty, 0), false);
        assert(head.drop_last() =~= seq![Event::Text(p, sty)]);
        assert(seq![Event::Text(p, sty)].drop_last() =~= Seq::<Event>::empty());
        assert(output(Seq::<Event>::empty(), false) == Seq::<char>::empty());
        assert(output(seq![Event::Text(p, sty)], false) =~= p);
        assert(spaces(0) =~= Seq::<char>::empty());
        assert(output(head, false) =~= p + seq!['\n']);
        assert(s =~= p + seq!['\n'] + t);
    }
}

proof fn lemma_text_doc_flat(s: Seq<char>)
    ensures
        text_doc(s).flatten() == text_doc(s),
    decreases s.len(),
{
    lemma_first_newline_bound(s);
    let n = first_newline(s);
    if n < s.len() {
        lemma_text_doc_flat(s.skip((n + 1) as int));
        reveal_with_fuel(Tree::flatten, 3);
    }
}

proof fn lemma_grouped_layout(w: nat, k: nat, i: nat, sty: ansi_term::Style, d: Tree, n: nat)
    requires
        d.flatten() == d,
    ensures
        grouped(d, n).flatten() == d,
        best(w, k, seq![(i, sty, grouped(d, n))]) == best(w, k, seq![(i, sty, d)]),
    decreases n,
{
    if n > 0 {
        let g = grouped(d, (n - 1) as nat);
        lemma_grouped_layout(w, k, i, sty, d, (n - 1) as nat);
        let e: Seq<Frame> = Seq::empty();
        lemma_push2((i, sty, grouped(d, n)), (i, sty, grouped(d, n)));
        lemma_push_pop(e, (i, sty, d));
        lemma_push_pop(e, (i, sty, g));
        assert(e.push((i, sty, d)) =~= seq![(i, sty, d)]);
        assert(e.push((i, sty, g)) =~= seq![(i, sty, g)]);
    }
}

/// A string's document lays out, at every width and inside any number of
/// groups, to the string itself: its newlines stay line breaks.
pub proof fn lemma_hard_newlines(w: nat, s: Seq<char>, n: nat, sty: ansi_term::Style)
    ensures
        rendered(w, grouped(text_doc(s), n), sty, false) == s,
{
    lemma_text_doc_flat(s);
    lemma_grouped_layout(w, 0, 0, sty, text_doc(s), n);
    lemma_text_doc_layout(w, 0, 0, sty, s);
    lemma_text_events_output(s, sty);
}

/// A group laid out on its own takes its flat form, which has no line
/// break, when that form has no hard line and fits in the width from the
/// current column; otherwise it takes the document as it is.
pub proof fn lemma_greedy_group(w: nat, k: nat, i: nat, sty: ansi_term::Style, d: Tree)
    requires
        no_break(d.flatten()),
    ensures
        k + byte_len(flat_text(d.flatten())) <= w ==> best(w, k, seq![(i, sty, group_tree(d))])
            == flat_events(d.flatten(), sty) && all_text(
            best(w, k, seq![(i, sty, group_tree(d))]),
        ),
        k + byte_len(flat_text(d.flatten())) > w ==> best(w, k, seq![(i, sty, group_tree(d))])
            == best(w, k, seq![(i, sty, d)]),
{
    let e: Seq<Frame> = Seq::empty();
    let f = d.flatten();
    lemma_push2((i, sty, group_tree(d)), (i, sty, group_tree(d)));
    lemma_push_pop(e, (i, sty, f));
    lemma_push_pop(e, (i, sty, d));
    assert(e.push((i, sty, f)) =~= seq![(i, sty, f)]);
    assert(e.push((i, sty, d)) =~= seq![(i, sty, d)]);
    lemma_best_no_break(w, k, e, i, sty, f);
    let l = flat_events(f, sty);
    assert(best(w, k + byte_len(flat_text(f)), e) == Seq::<Event>::empty());
    assert(l + Seq::<Event>::empty() =~= l);
    lemma_flat_events(f, sty);
    lemma_fits_text_prefix(w, k, l, Seq::<Event>::empty());
    assert(l + Seq::<Event>::empty() =~= l);
}

/// An empty list in parentheses renders as `()` at every width from two
/// up; below that its flat form does not fit and the brackets break.
pub proof fn lemma_empty_brackets(w: nat, sty: ansi_term::Style)
    requires
        w >= 2,
    ensures
        rendered(w, bracket_tree(Tree::Text(seq![]), seq!['('], seq![')']), sty, false) == seq![
            '(',
            ')',
        ],
{
    lemma_text_doc_no_newline(seq!['(']);
    lemma_text_doc_no_newline(seq![')']);
    let split = Tree::Line(Some(seq![]));
    let opened = Tree::Append(
        Box::new(Tree::Append(Box::new(Tree::Text(seq!['('])), Box::new(split))),
        Box::new(Tree::Text(seq![])),
    );
    let d = Tree::Append(
        Box::new(Tree::Append(Box::new(Tree::Nest(4, Box::new(opened))), Box::new(split))),
        Box::new(Tree::Text(seq![')'])),
    );
    assert(bracket_tree(Tree::Text(seq![]), seq!['('], seq![')']) == group_tree(d));
    let f = d.flatten();
    reveal_with_fuel(Tree::flatten, 6);
    reveal_with_fuel(no_break, 6);
    reveal_with_fuel(flat_text, 6);
    assert(no_break(f));
    assert(flat_text(f) =~= seq!['(', ')']);
    assert(vstd::utf8::is_ascii_chars(seq!['(', ')']));
    vstd::utf8::is_ascii_chars_encode_utf8(seq!['(', ')']);
    lemma_greedy_group(w, 0, 0, sty, d);
    lemma_flat_events(f, sty);
}

/// Grouping twice lays out as grouping once, anywhere on a work list.
pub proof fn lemma_group_twice(w: nat, k: nat, rest: Seq<Frame>, i: nat, sty: ansi_term::Style, d: Tree)
    ensures
        best(w, k, rest.push((i, sty, group_tree(group_tree(d))))) == best(
            w,
            k,
            rest.push((i, sty, group_tree(d))),
        ),
{
    lemma_flatten_group(d);
    lemma_push_pop(rest, (i, sty, group_tree(group_tree(d))));
    lemma_push_pop(rest, (i, sty, group_tree(d)));
    lemma_push_pop(rest, (i, sty, d.flatten()));
    lemma_push_pop(rest, (i, sty, d));
}

/// Two work lists that lay out alike from every column still lay out alike
/// with the same entries pushed on top of both.
pub proof fn lemma_best_congruent(w: nat, k: nat, r1: Seq<Frame>, r2: Seq<Frame>, t: Seq<Frame>)
    requires
        forall|c: nat| #[trigger] best(w, c, r1) == best(w, c, r2),
    ensures
        best(w, k, r1 + t) == best(w, k, r2 + t),
    decreases crate::layout::stack_size(t),
{
    if t.len() == 0 {
        assert(r1 + t =~= r1);
        assert(r2 + t =~= r2);
        assert(best(w, k, r1) == best(w, k, r2));
    } else {
        let (i, sty, d) = t.last();
        let tr = t.drop_last();
        crate::layout::lemma_stack_push(tr, (i, sty, d));
        assert(tr.push((i, sty, d)) =~= t);
        assert((r1 + t).drop_last() =~= r1 + tr);
        assert((r2 + t).drop_last() =~= r2 + tr);
        assert((r1 + t).last() == t.last());
        assert((r2 + t).last() == t.last());
        match d {
            Tree::Append(x, y) => {
                let t2 = tr.push((i, sty, *y)).push((i, sty, *x));
                crate::layout::lemma_stack_push(tr, (i, sty, *y));
                crate::layout::lemma_stack_push(tr.push((i, sty, *y)), (i, sty, *x));
                assert((r1 + tr).push((i, sty, *y)).push((i, sty, *x)) =~= r1 + t2);
                assert((r2 + tr).push((i, sty, *y)).push((i, sty, *x)) =~= r2 + t2);
                lemma_best_congruent(w, k, r1, r2, t2);
            },
            Tree::Nest(j, x) => {
                let t2 = tr.push((i + j, sty, *x));
                crate::layout::lemma_stack_push(tr, (i + j, sty, *x));
                assert((r1 + tr).push((i + j, sty, *x)) =~= r1 + t2);
                assert((r2 + tr).push((i + j, sty, *x)) =~= r2 + t2);
                lemma_best_congruent(w, k, r1, r2, t2);
            },
            Tree::Style(s, x) => {
                let t2 = tr.push((i, s, *x));
                crate::layout::lemma_stack_push(tr, (i, s, *x));
                assert((r1 + tr).push((i, s, *x)) =~= r1 + t2);
                assert((r2 + tr).push((i, s, *x)) =~= r2 + t2);
                lemma_best_congruent(w, k, r1, r2, t2);
            },
            Tree::Text(s) => {
                lemma_best_congruent(w, k + byte_len(s), r1, r2, tr);
            },
            Tree::Line(_) => {
                lemma_best_congruent(w, i, r1, r2, tr);
            },
            Tree::Alt(x, y) => {
                let tx = tr.push((i, sty, *x));
                let ty = tr.push((i, sty, *y));
                crate::layout::lemma_stack_push(tr, (i, sty, *x));
                crate::layout::lemma_stack_push(tr, (i, sty, *y));
                assert((r1 + tr).push((i, sty, *x)) =~= r1 + tx);
                assert((r2 + tr).push((i, sty, *x)) =~= r2 + tx);
                assert((r1 + tr).push((i, sty, *y)) =~= r1 + ty);
                assert((r2 + tr).push((i, sty, *y)) =~= r2 + ty);
                lemma_best_congruent(w, k, r1, r2, tx);
                lemma_best_congruent(w, k, r1, r2, ty);
            },
        }
    }
}

/// Concatenation is associative up to layout, anywhere on a work list.
pub proof fn lemma_append_assoc(
    w: nat,
    k: nat,
    rest: Seq<Frame>,
    i: nat,
    sty: ansi_term::Style,
    a: Tree,
    b: Tree,
    x: Tree,
)
    ensures
        best(
            w,
            k,
            rest.push(
                (
                    i,
                    sty,
                    Tree::Append(
                        Box::new(Tree::Append(Box::new(a), Box::new(b))),
                        Box::new(x),
                    ),
                ),
            ),
        ) == best(
            w,
            k,
            rest.push(
                (
                    i,
                    sty,
                    Tree::Append(
                        Box::new(a),
                        Box::new(Tree::Append(Box::new(b), Box::new(x))),
                    ),
                ),
            ),
        ),
{
    let ab = Tree::Append(Box::new(a), Box::new(b));
    let bx = Tree::Append(Box::new(b), Box::new(x));
    let left = Tree::Append(Box::new(ab), Box::new(x));
    let right = Tree::Append(Box::new(a), Box::new(bx));
    let r1 = rest.push((i, sty, x)).push((i, sty, b));
    let r2 = rest.push((i, sty, bx));
    lemma_push_pop(rest, (i, sty, left));
    lemma_push_pop(rest, (i, sty, right));
    lemma_push_pop(rest.push((i, sty, x)), (i, sty, ab));
    lemma_push_pop(rest, (i, sty, bx));
    lemma_push_pop(rest.push((i, sty, x)), (i, sty, b));
    lemma_push_pop(r1, (i, sty, a));
    lemma_push_pop(r2, (i, sty, a));
    assert forall|c: nat| #[trigger] best(w, c, r1) == best(w, c, r2) by {
        lemma_push_pop(rest, (i, sty, bx));
    }
    lemma_best_congruent(w, k, r1, r2, seq![(i, sty, a)]);
    assert(r1 + seq![(i, sty, a)] =~= r1.push((i, sty, a)));
    assert(r2 + seq![(i, sty, a)] =~= r2.push((i, sty, a)));
    assert(best(w, k, rest.push((i, sty, left))) == best(w, k, rest.push((i, sty, x)).push((i, sty, ab))));
    assert(best(w, k, rest.push((i, sty, x)).push((i, sty, ab))) == best(w, k, r1.push((i, sty, a))));
    assert(best(w, k, rest.push((i, sty, right))) == best(w, k, r2.push((i, sty, a))));
}

/// The empty document before another one renders as that document alone,
/// without color, or with a base style that paints empty text as nothing.
pub proof fn lemma_empty_left_identity(w: nat, d: Tree, sty: ansi_term::Style, color: bool)
    requires
        color ==> crate::render::painted(sty, seq![]) == Seq::<char>::empty(),
    ensures
        rendered(w, Tree::Append(Box::new(Tree::Text(seq![])), Box::new(d)), sty, color)
            == rendered(w, d, sty, color),
{
    let e: Seq<Frame> = Seq::empty();
    let ap = Tree::Append(Box::new(Tree::Text(seq![])), Box::new(d));
    lemma_push2((0nat, sty, ap), (0nat, sty, ap));
    lemma_push_pop(e, (0nat, sty, d));
    lemma_push_pop(e.push((0nat, sty, d)), (0nat, sty, Tree::Text(seq![])));
    assert(e.push((0nat, sty, d)) =~= seq![(0nat, sty, d)]);
    assert(byte_len(seq![]) == 0);
    assert(best(w, 0, seq![(0nat, sty, ap)]) == best(w, 0, e.push((0nat, sty, d)).push((0nat, sty, Tree::Text(seq![])))));
    assert(best(w, 0, e.push((0nat, sty, d)).push((0nat, sty, Tree::Text(seq![])))) == seq![Event::Text(seq![], sty)] + best(w, 0, e.push((0nat, sty, d))));
    let head = seq![Event::Text(seq![], sty)];
    let tail = best(w, 0, seq![(0nat, sty, d)]);
    lemma_output_append(head, tail, color);
    assert(head.drop_last() =~= Seq::<Event>::empty());
    assert(output(Seq::<Event>::empty(), color) == Seq::<char>::empty());
    assert(output(head, color) =~= Seq::<char>::empty());
    assert(output(head, color) + output(tail, color) =~= output(tail, color));
}

/// An empty text event after a sequence changes nothing of whether it fits.
pub proof fn lemma_fits_trailing_empty(w: nat, k: nat, l: Seq<Event>, sty: ansi_term::Style)
    ensures
        fits(w, k, l + seq![Event::Text(seq![], sty)]) == fits(w, k, l),
    decreases l.len(),
{
    let e = seq![Event::Text(seq![], sty)];
    assert(byte_len(seq![]) == 0);
    if l.len() == 0 {
        assert(l + e =~= e);
        assert(e.drop_first() =~= Seq::<Event>::empty());
        assert(e[0] == Event::Text(seq![], sty));
        assert(fits(w, k + byte_len(seq![]), Seq::<Event>::empty()) == (k <= w));
        assert(fits(w, k, e) == (k <= w));
    } else {
        assert((l + e)[0] == l[0]);
        assert((l + e).drop_first() =~= l.drop_first() + e);
        if let Event::Text(s, _) = l[0] {
            lemma_fits_trailing_empty(w, k + byte_len(s), l.drop_first(), sty);
        }
    }
}

/// An empty text at the bottom of a work list adds one empty text event at
/// the end of its layout, and changes no choice above it.
pub proof fn lemma_best_trailing_empty(w: nat, k: nat, i0: nat, sty0: ansi_term::Style, t: Seq<Frame>)
    ensures
        best(w, k, seq![(i0, sty0, Tree::Text(seq![]))] + t) == best(w, k, t) + seq![
            Event::Text(seq![], sty0),
        ],
    decreases crate::layout::stack_size(t),
{
    let b = seq![(i0, sty0, Tree::Text(seq![]))];
    let e = seq![Event::Text(seq![], sty0)];
    assert(byte_len(seq![]) == 0);
    if t.len() == 0 {
        assert(b + t =~= b);
        lemma_push2((i0, sty0, Tree::Text(seq![])), (i0, sty0, Tree::Text(seq![])));
        assert(best(w, k, Seq::<Frame>::empty()) == Seq::<Event>::empty());
        assert(e + Seq::<Event>::empty() =~= e);
        assert(Seq::<Event>::empty() + e =~= e);
    } else {
        let (i, sty, d) = t.last();
        let tr = t.drop_last();
        crate::layout::lemma_stack_push(tr, (i, sty, d));
        assert(tr.push((i, sty, d)) =~= t);
        assert((b + t).drop_last() =~= b + tr);
        assert((b + t).last() == t.last());
        match d {
            Tree::Append(x, y) => {
                let t2 = tr.push((i, sty, *y)).push((i, sty, *x));
                crate::layout::lemma_stack_push(tr, (i, sty, *y));
                crate::layout::lemma_stack_push(tr.push((i, sty, *y)), (i, sty, *x));
                assert((b + tr).push((i, sty, *y)).push((i, sty, *x)) =~= b + t2);
                lemma_best_trailing_empty(w, k, i0, sty0, t2);
            },
            Tree::Nest(j, x) => {
                let t2 = tr.push((i + j, sty, *x));
                crate::layout::lemma_stack_push(tr, (i + j, sty, *x));
                assert((b + tr).push((i + j, sty, *x)) =~= b + t2);
                lemma_best_trailing_empty(w, k, i0, sty0, t2);
            },
            Tree::Style(s, x) => {
                let t2 = tr.push((i, s, *x));
                crate::layout::lemma_stack_push(tr, (i, s, *x));
                assert((b + tr).push((i, s, *x)) =~= b + t2);
                lemma_best_trailing_empty(w, k, i0, sty0, t2);
            },
            Tree::Text(s) => {
                lemma_best_trailing_empty(w, k + byte_len(s), i0, sty0, tr);
                let r = best(w, k + byte_len(s), tr);
                assert(seq![Event::Text(s, sty)] + (r + e) =~= (seq![Event::Text(s, sty)] + r) + e);
            },
            Tree::Line(_) => {
                lemma_best_trailing_empty(w, i, i0, sty0, tr);
                let r = best(w, i, tr);
                assert(seq![Event::Line(i)] + (r + e) =~= (seq![Event::Line(i)] + r) + e);
            },
            Tree::Alt(x, y) => {
                let tx = tr.push((i, sty, *x));
                let ty = tr.push((i, sty, *y));
                crate::layout::lemma_stack_push(tr, (i, sty, *x));
                crate::layout::lemma_stack_push(tr, (i, sty, *y));
                assert((b + tr).push((i, sty, *x)) =~= b + tx);
                assert((b + tr).push((i, sty, *y)) =~= b + ty);
                lemma_best_trailing_empty(w, k, i0, sty0, tx);
                lemma_best_trailing_empty(w, k, i0, sty0, ty);
                lemma_fits_trailing_empty(w, k, best(w, k, tx), sty0);
            },
        }
    }
}

/// The empty document after another one renders as that document alone,
/// without color, or with a base style that paints empty text as nothing.
pub proof fn lemma_empty_right_identity(w: nat, d: Tree, sty: ansi_term::Style, color: bool)
    requires
        color ==> crate::render::painted(sty, seq![]) == Seq::<char>::empty(),
    ensures
        rendered(w, Tree::Append(Box::new(d), Box::new(Tree::Text(seq![]))), sty, color)
            == rendered(w, d, sty, color),
{
    let e: Seq<Frame> = Seq::empty();
    let ap = Tree::Append(Box::new(d), Box::new(Tree::Text(seq![])));
    let bottom = seq![(0nat, sty, Tree::Text(seq![]))];
    lemma_push2((0nat, sty, ap), (0nat, sty, ap));
    lemma_push_pop(e, (0nat, sty, Tree::Text(seq![])));
    assert(e.push((0nat, sty, Tree::Text(seq![]))) =~= bottom);
    lemma_push_pop(bottom, (0nat, sty, d));
    assert(bottom.push((0nat, sty, d)) =~= bottom + seq![(0nat, sty, d)]);
    lemma_best_trailing_empty(w, 0, 0, sty, seq![(0nat, sty, d)]);
    let evs = best(w, 0, seq![(0nat, sty, d)]);
    let last = seq![Event::Text(seq![], sty)];
    lemma_output_append(evs, last, color);
    assert(last.drop_last() =~= Seq::<Event>::empty());
    assert(output(Seq::<Event>::empty(), color) == Seq::<char>::empty());
    assert(output(last, color) =~= Seq::<char>::empty());
    assert(output(evs, color) + output(last, color) =~= output(evs, color));
}

} // verus!
