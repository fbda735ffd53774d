use vstd::prelude::*;
use vstd::string::StrSliceExecFns;
use crate::doc::{DocInner, Tree, byte_len};

verus! {

/// A layout event of the model: a line break followed by an indent, or a run
/// of text with its style.
pub enum Event {
    Line(nat),
    Text(Seq<char>, ansi_term::Style),
}

/// A work-list entry of the model: indentation, style and the subtree left to lay out.
pub type Frame = (nat, ansi_term::Style, Tree);

/// The total size of the subtrees on a work list.
pub open spec fn stack_size(st: Seq<Frame>) -> nat
    decreases st.len(),
{
    if st.len() == 0 {
        0
    } else {
        stack_size(st.drop_last()) + st.last().2.size()
    }
}

/// The total text on a work list.
pub open spec fn stack_text(st: Seq<Frame>) -> nat
    decreases st.len(),
{
    if st.len() == 0 {
        0
    } else {
        stack_text(st.drop_last()) + st.last().2.text_total()
    }
}

/// Whether a sequence of events, started at column `k`, stays within width
/// `w` up to its first line break.
pub open spec fn fits(w: nat, k: nat, evs: Seq<Event>) -> bool
    decreases evs.len(),
{
    k <= w && (evs.len() == 0 || match evs[0] {
        Event::Line(_) => true,
        Event::Text(s, _) => fits(w, k + byte_len(s), evs.drop_first()),
    })
}

/// The layout of a work list at width `w` from column `k`: the top of the
/// work list is its last entry. At an alternative, the flat continuation is
/// taken if it fits, else the broken one.
pub open spec fn best(w: nat, k: nat, st: Seq<Frame>) -> Seq<Event>
    decreases stack_size(st),
    via best_decreases
{
    if st.len() == 0 {
        seq![]
    } else {
        let (i, sty, d) = st.last();
        let rest = st.drop_last();
        match d {
            Tree::Append(x, y) => best(w, k, rest.push((i, sty, *y)).push((i, sty, *x))),
            Tree::Nest(j, x) => best(w, k, rest.push((i + j, sty, *x))),
            Tree::Style(s, x) => best(w, k, rest.push((i, s, *x))),
            Tree::Text(s) => seq![Event::Text(s, sty)] + best(w, k + byte_len(s), rest),
            Tree::Line(_) => seq![Event::Line(i)] + best(w, i, rest),
            Tree::Alt(x, y) => {
                let l = best(w, k, rest.push((i, sty, *x)));
                if fits(w, k, l) {
                    l
                } else {
                    best(w, k, rest.push((i, sty, *y)))
                }
            },
        }
    }
}

/// Pushing an entry adds its size and its text to those of the work list.
pub proof fn lemma_stack_push(st: Seq<Frame>, f: Frame)
    ensures
        stack_size(st.push(f)) == stack_size(st) + f.2.size(),
        stack_text(st.push(f)) == stack_text(st) + f.2.text_total(),
{
    assert(st.push(f).drop_last() =~= st);
}

#[via_fn]
proof fn best_decreases(w: nat, k: nat, st: Seq<Frame>) {
    if st.len() > 0 {
        let (i, sty, d) = st.last();
        let rest = st.drop_last();
        assert(stack_size(st) == stack_size(rest) + d.size());
        match d {
            Tree::Append(x, y) => {
                lemma_stack_push(rest, (i, sty, *y));
                lemma_stack_push(rest.push((i, sty, *y)), (i, sty, *x));
            },
            Tree::Nest(j, x) => {
                lemma_stack_push(rest, (i + j, sty, *x));
            },
            Tree::Style(s, x) => {
                lemma_stack_push(rest, (i, s, *x));
            },
            Tree::Alt(x, y) => {
                lemma_stack_push(rest, (i, sty, *x));
                lemma_stack_push(rest, (i, sty, *y));
            },
            _ => {},
        }
    }
}

/// A resolved layout event: a line break with its indent, or text with its style.
pub enum RenderDoc<'a> {
    Line(usize),
    Text(&'a str, ansi_term::Style),
}

impl<'a> RenderDoc<'a> {
    /// The event of the model that this one stands for.
    pub open spec fn model(&self) -> Event {
        match self {
            RenderDoc::Line(i) => Event::Line(*i as nat),
            RenderDoc::Text(s, sty) => Event::Text(s@, *sty),
        }
    }
}

/// The model of a sequence of events.
pub open spec fn events_model<'a>(evs: Seq<RenderDoc<'a>>) -> Seq<Event> {
    evs.map_values(|e: RenderDoc<'a>| e.model())
}

/// The model of an executable work list.
pub open spec fn frames_model<'a>(st: Seq<WorkItem<'a>>) -> Seq<Frame> {
    st.map_values(|f: WorkItem<'a>| (f.0 as nat, f.1, f.2@))
}

/// The bounds under which the layout of a work list computes no indent or
/// column beyond `usize`: every frame's indent plus the nesting beneath it is
/// at most `n`, the text left is at most `t`, and the column plus the text
/// left is at most `n + t`.
pub open spec fn within_bounds(k: nat, st: Seq<Frame>, n: nat, t: nat) -> bool {
    &&& n + t <= usize::MAX
    &&& stack_text(st) <= t
    &&& k + stack_text(st) <= n + t
    &&& forall|j: int| 0 <= j < st.len() ==> #[trigger] st[j].0 + st[j].2.nest_depth() <= n
}

/// An entry of the executable work list.
pub type WorkItem<'a> = (usize, ansi_term::Style, &'a DocInner);

/// The work list after expanding a concatenation, nesting or style node
/// `f` popped off `rest`, as `best` does.
pub open spec fn expand(rest: Seq<Frame>, f: Frame) -> Seq<Frame> {
    let (i, sty, d) = f;
    match d {
        Tree::Append(x, y) => rest.push((i, sty, *y)).push((i, sty, *x)),
        Tree::Nest(j, x) => rest.push((i + j, sty, *x)),
        Tree::Style(s, x) => rest.push((i, s, *x)),
        _ => rest,
    }
}

/// Whether `d` is a node that `expand` replaces by its children.
pub open spec fn is_structural(d: Tree) -> bool {
    d is Append || d is Nest || d is Style
}

proof fn lemma_frames_push<'a>(st: Seq<WorkItem<'a>>, f: WorkItem<'a>)
    ensures
        frames_model(st.push(f)) == frames_model(st).push((f.0 as nat, f.1, f.2@)),
{
    assert(frames_model(st.push(f)) =~= frames_model(st).push((f.0 as nat, f.1, f.2@)));
}

proof fn lemma_events_push<'a>(evs: Seq<RenderDoc<'a>>, e: RenderDoc<'a>)
    ensures
        events_model(evs.push(e)) == events_model(evs) + seq![e.model()],
{
    assert(events_model(evs.push(e)) =~= events_model(evs) + seq![e.model()]);
}

/// Popping the top entry off a work list within bounds leaves one within
/// bounds, with the popped entry's own bound.
proof fn lemma_pop_bounds(k: nat, st: Seq<Frame>, n: nat, t: nat)
    requires
        within_bounds(k, st, n, t),
        st.len() > 0,
    ensures
        st.drop_last().push(st.last()) == st,
        stack_text(st) == stack_text(st.drop_last()) + st.last().2.text_total(),
        stack_size(st) == stack_size(st.drop_last()) + st.last().2.size(),
        st.last().0 + st.last().2.nest_depth() <= n,
        forall|j: int|
            0 <= j < st.drop_last().len() ==> #[trigger] st.drop_last()[j].0
                + st.drop_last()[j].2.nest_depth() <= n,
{
    assert(st.drop_last().push(st.last()) =~= st);
    assert(st[st.len() - 1] == st.last());
    assert forall|j: int| 0 <= j < st.drop_last().len() implies #[trigger] st.drop_last()[j].0
        + st.drop_last()[j].2.nest_depth() <= n by {
        assert(st.drop_last()[j] == st[j]);
    }
}

/// Pushing an entry within the nesting bound keeps every entry within it.
proof fn lemma_push_bound(st: Seq<Frame>, f: Frame, n: nat)
    requires
        forall|j: int| 0 <= j < st.len() ==> #[trigger] st[j].0 + st[j].2.nest_depth() <= n,
        f.0 + f.2.nest_depth() <= n,
    ensures
        forall|j: int|
            0 <= j < st.push(f).len() ==> #[trigger] st.push(f)[j].0 + st.push(f)[j].2.nest_depth()
                <= n,
{
    assert forall|j: int| 0 <= j < st.push(f).len() implies #[trigger] st.push(f)[j].0 + st.push(
        f,
    )[j].2.nest_depth() <= n by {
        if j < st.len() {
            assert(st.push(f)[j] == st[j]);
        }
    }
}

/// Replaces a concatenation, nesting or style node, just popped off the
/// work list, by its children.
fn push_children<'a>(
    work: &mut Vec<WorkItem<'a>>,
    i: usize,
    sty: ansi_term::Style,
    doc: &'a DocInner,
    Ghost(k): Ghost<nat>,
    Ghost(n): Ghost<nat>,
    Ghost(t): Ghost<nat>,
)
    requires
        is_structural(doc@),
        within_bounds(k, frames_model(old(work)@).push((i as nat, sty, doc@)), n, t),
    ensures
        frames_model(final(work)@) == expand(frames_model(old(work)@), (i as nat, sty, doc@)),
        within_bounds(k, frames_model(final(work)@), n, t),
        stack_size(frames_model(final(work)@)) < stack_size(
            frames_model(old(work)@).push((i as nat, sty, doc@)),
        ),
{
    let ghost rest = frames_model(work@);
    let ghost st = rest.push((i as nat, sty, doc@));
    proof {
        lemma_pop_bounds(k, st, n, t);
        assert(st.drop_last() =~= rest);
    }
    match doc {
        DocInner::Append(x, y) => {
            let ghost before = work@;
            work.push((i, sty, &**y));
            let ghost mid = work@;
            work.push((i, sty, &**x));
            proof {
                lemma_frames_push(before, (i, sty, &**y));
                lemma_frames_push(mid, (i, sty, &**x));
                lemma_stack_push(rest, (i as nat, sty, y@));
                lemma_stack_push(rest.push((i as nat, sty, y@)), (i as nat, sty, x@));
                lemma_push_bound(rest, (i as nat, sty, y@), n);
                lemma_push_bound(rest.push((i as nat, sty, y@)), (i as nat, sty, x@), n);
            }
        },
        DocInner::Nest(j, x) => {
            let ghost before = work@;
            let ni = i + *j;
            work.push((ni, sty, &**x));
            proof {
                lemma_frames_push(before, (ni, sty, &**x));
                lemma_stack_push(rest, (ni as nat, sty, x@));
                lemma_push_bound(rest, (ni as nat, sty, x@), n);
            }
        },
        DocInner::Style(s, x) => {
            let ghost before = work@;
            work.push((i, *s, &**x));
            proof {
                lemma_frames_push(before, (i, *s, &**x));
                lemma_stack_push(rest, (i as nat, *s, x@));
                lemma_push_bound(rest, (i as nat, *s, x@), n);
            }
        },
        _ => {},
    }
}

/// A copy of a work list; its entries are shared references and plain values.
fn copy_stack<'a>(stack: &Vec<WorkItem<'a>>) -> (r: Vec<WorkItem<'a>>)
    ensures
        r@ == stack@,
{
    let mut out: Vec<WorkItem<'a>> = Vec::new();
    let mut j: usize = 0;
    while j < stack.len()
        invariant
            j <= stack@.len(),
            out@ == stack@.subrange(0, j as int),
        decreases stack@.len() - j,
    {
        out.push(stack[j]);
        j = j + 1;
        assert(out@ =~= stack@.subrange(0, j as int));
    }
    assert(out@ =~= stack@);
    out
}

/// Whether the layout of a work list from column `k` fits width `w` up to
/// its first line break. It lays out only that far: it stops at the first
/// line break or as soon as the column passes the width, and emits nothing.
pub fn fits_ahead<'a>(
    w: usize,
    k: usize,
    stack: Vec<WorkItem<'a>>,
    Ghost(n): Ghost<nat>,
    Ghost(t): Ghost<nat>,
) -> (r: bool)
    requires
        within_bounds(k as nat, frames_model(stack@), n, t),
    ensures
        r == fits(w as nat, k as nat, best(w as nat, k as nat, frames_model(stack@))),
    decreases stack_size(frames_model(stack@)),
{
    if k > w {
        return false;
    }
    let ghost goal = fits(w as nat, k as nat, best(w as nat, k as nat, frames_model(stack@)));
    let mut work = stack;
    let mut col = k;
    loop
        invariant
            col <= w,
            within_bounds(col as nat, frames_model(work@), n, t),
            goal == fits(w as nat, col as nat, best(w as nat, col as nat, frames_model(work@))),
            goal == fits(w as nat, k as nat, best(w as nat, k as nat, frames_model(stack@))),
            stack_size(frames_model(work@)) <= stack_size(frames_model(stack@)),
        decreases stack_size(frames_model(work@)),
    {
        let ghost before = frames_model(work@);
        match work.pop() {
            None => {
                assert(before =~= Seq::<Frame>::empty());
                return true;
            },
            Some(top) => {
                let (i, sty, doc) = top;
                let ghost rest = frames_model(work@);
                let ghost m = (i as nat, sty, doc@);
                proof {
                    lemma_frames_push(work@, top);
                    lemma_pop_bounds(col as nat, before, n, t);
                    assert(before.drop_last() =~= rest);
                }
                match doc {
                    DocInner::Text(s) => {
                        let len = s.as_str().len();
                        let ghost tail = best(w as nat, (col + len) as nat, rest);
                        assert((seq![Event::Text(s@, sty)] + tail)[0] == Event::Text(s@, sty));
                        assert((seq![Event::Text(s@, sty)] + tail).drop_first() =~= tail);
                        if len > w - col {
                            assert(!fits(w as nat, (col + len) as nat, tail));
                            return false;
                        }
                        col = col + len;
                    },
                    DocInner::Line(_) => {
                        let ghost tail = best(w as nat, i as nat, rest);
                        assert((seq![Event::Line(i as nat)] + tail)[0] == Event::Line(i as nat));
                        return true;
                    },
                    DocInner::Alt(x, y) => {
                        let mut flat = copy_stack(&work);
                        flat.push((i, sty, &**x));
                        proof {
                            lemma_frames_push(work@, (i, sty, &**x));
                            lemma_stack_push(rest, (i as nat, sty, x@));
                            lemma_push_bound(rest, (i as nat, sty, x@), n);
                        }
                        if fits_ahead(w, col, flat, Ghost(n), Ghost(t)) {
                            return true;
                        }
                        let ghost r0 = work@;
                        work.push((i, sty, &**y));
                        proof {
                            lemma_frames_push(r0, (i, sty, &**y));
                            lemma_stack_push(rest, (i as nat, sty, y@));
                            lemma_push_bound(rest, (i as nat, sty, y@), n);
                        }
                        return fits_ahead(w, col, work, Ghost(n), Ghost(t));
                    },
                    _ => {
                        push_children(&mut work, i, sty, doc, Ghost(col as nat), Ghost(n), Ghost(t));
                    },
                }
            },
        }
    }
}

/// Lays out a work list at width `w` from column `k` (the number of columns
/// already used on the current line). At an alternative, the flat branch is
/// taken if its layout fits up to its first line break, which `fits_ahead`
/// decides by looking no further; else the broken branch.
pub fn best_exec<'a>(
    w: usize,
    k: usize,
    stack: Vec<WorkItem<'a>>,
    Ghost(n): Ghost<nat>,
    Ghost(t): Ghost<nat>,
) -> (r: Vec<RenderDoc<'a>>)
    requires
        within_bounds(k as nat, frames_model(stack@), n, t),
    ensures
        events_model(r@) == best(w as nat, k as nat, frames_model(stack@)),
{
    let ghost goal = best(w as nat, k as nat, frames_model(stack@));
    let mut work = stack;
    let mut col = k;
    let mut rendered: Vec<RenderDoc<'a>> = Vec::new();
    loop
        invariant
            within_bounds(col as nat, frames_model(work@), n, t),
            events_model(rendered@) + best(w as nat, col as nat, frames_model(work@)) == goal,
            goal == best(w as nat, k as nat, frames_model(stack@)),
        decreases stack_size(frames_model(work@)),
    {
        let ghost before = frames_model(work@);
        let ghost evs_before = rendered@;
        match work.pop() {
            None => {
                assert(before =~= Seq::<Frame>::empty());
                assert(best(w as nat, col as nat, before) == Seq::<Event>::empty());
                assert(events_model(rendered@) + Seq::<Event>::empty() =~= events_model(rendered@));
                return rendered;
            },
            Some(top) => {
                let (i, sty, doc) = top;
                let ghost rest = frames_model(work@);
                proof {
                    lemma_frames_push(work@, top);
                    lemma_pop_bounds(col as nat, before, n, t);
                    assert(before.drop_last() =~= rest);
                }
                match doc {
                    DocInner::Text(s) => {
                        let e = RenderDoc::Text(s.as_str(), sty);
                        let len = s.as_str().len();
                        col = col + len;
                        rendered.push(e);
                        proof {
                            lemma_events_push(evs_before, e);
                            assert(events_model(rendered@) + best(w as nat, col as nat, rest)
                                =~= events_model(evs_before) + (seq![e.model()] + best(
                                w as nat,
                                col as nat,
                                rest,
                            )));
                        }
                    },
                    DocInner::Line(_) => {
                        let e = RenderDoc::Line(i);
                        col = i;
                        rendered.push(e);
                        proof {
                            lemma_events_push(evs_before, e);
                            assert(events_model(rendered@) + best(w as nat, col as nat, rest)
                                =~= events_model(evs_before) + (seq![e.model()] + best(
                                w as nat,
                                col as nat,
                                rest,
                            )));
                        }
                    },
                    DocInner::Alt(x, y) => {
                        let mut flat = copy_stack(&work);
                        flat.push((i, sty, &**x));
                        proof {
                            lemma_frames_push(work@, (i, sty, &**x));
                            lemma_stack_push(rest, (i as nat, sty, x@));
                            lemma_push_bound(rest, (i as nat, sty, x@), n);
                        }
                        let ghost r0 = work@;
                        if fits_ahead(w, col, flat, Ghost(n), Ghost(t)) {
                            work.push((i, sty, &**x));
                            proof {
                                lemma_frames_push(r0, (i, sty, &**x));
                            }
                        } else {
                            work.push((i, sty, &**y));
                            proof {
                                lemma_frames_push(r0, (i, sty, &**y));
                                lemma_stack_push(rest, (i as nat, sty, y@));
                                lemma_push_bound(rest, (i as nat, sty, y@), n);
                            }
                        }
                    },
                    _ => {
                        push_children(&mut work, i, sty, doc, Ghost(col as nat), Ghost(n), Ghost(t));
                    },
                }
            },
        }
    }
}

} // verus!
