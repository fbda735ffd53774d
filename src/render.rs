use vstd::prelude::*;
use vstd::string::StringExecFns;
use crate::doc::{Doc, DocInner, Tree};
use crate::layout::{
    Event, Frame, RenderDoc, WorkItem, best, best_exec, events_model, frames_model,
    lemma_stack_push, within_bounds,
};

verus! {

/// The text that `ansi_term` writes for `text` painted with `style`: the
/// control sequences that switch the style on, the text, and those that
/// switch it off.
pub uninterp spec fn painted(style: ansi_term::Style, text: Seq<char>) -> Seq<char>;

/// Relies on `ansi_term::Style::paint` and the `Display` impl of the painted
/// string it returns, whose output depends on the style and the text alone.
#[verifier::external_body]
fn paint(style: ansi_term::Style, text: &str) -> (r: String)
    ensures
        r@ == painted(style, text@),
{
    style.paint(text).to_string()
}

/// `n` space characters.
pub open spec fn spaces(n: nat) -> Seq<char> {
    Seq::new(n, |_j: int| ' ')
}

/// The characters written for one event: a newline and the indent, or the
/// text, painted if `color` is set.
pub open spec fn event_text(e: Event, color: bool) -> Seq<char> {
    match e {
        Event::Line(i) => seq!['\n'] + spaces(i),
        Event::Text(s, sty) => if color {
            painted(sty, s)
        } else {
            s
        },
    }
}

/// The characters written for a sequence of events.
pub open spec fn output(evs: Seq<Event>, color: bool) -> Seq<char>
    decreases evs.len(),
{
    if evs.len() == 0 {
        seq![]
    } else {
        output(evs.drop_last(), color) + event_text(evs.last(), color)
    }
}

/// The events for a whole document laid out at width `w` from column zero,
/// with indentation zero and base style `sty`.
pub open spec fn layout(w: nat, d: Tree, sty: ansi_term::Style) -> Seq<Event> {
    best(w, 0, seq![(0nat, sty, d)])
}

/// The text of a whole document laid out at width `w`.
pub open spec fn rendered(w: nat, d: Tree, sty: ansi_term::Style, color: bool) -> Seq<char> {
    output(layout(w, d, sty), color)
}

/// Lays out a whole document at width `w`, starting from column zero.
pub fn layout_exec<'a>(w: usize, doc: &'a DocInner, sty: ansi_term::Style) -> (r: Vec<RenderDoc<'a>>)
    requires
        doc@.fits_machine(),
    ensures
        events_model(r@) == layout(w as nat, doc@, sty),
{
    let mut stack: Vec<WorkItem<'a>> = Vec::new();
    stack.push((0, sty, doc));
    proof {
        let st = frames_model(stack@);
        assert(st =~= seq![(0nat, sty, doc@)]);
        lemma_stack_push(Seq::<Frame>::empty(), (0nat, sty, doc@));
        assert(Seq::<Frame>::empty().push((0nat, sty, doc@)) =~= st);
        assert(within_bounds(0, st, doc@.nest_depth(), doc@.text_total()));
    }
    best_exec(w, 0, stack, Ghost(doc@.nest_depth()), Ghost(doc@.text_total()))
}

/// Writes the events as text, painting text runs if `color` is set.
pub fn write_events(evs: &Vec<RenderDoc>, color: bool) -> (r: String)
    ensures
        r@ == output(events_model(evs@), color),
{
    let ghost all = events_model(evs@);
    let mut out = String::new();
    let mut idx: usize = 0;
    assert(all.take(0) =~= Seq::<Event>::empty());
    while idx < evs.len()
        invariant
            idx <= evs@.len(),
            all == events_model(evs@),
            out@ == output(all.take(idx as int), color),
        decreases evs@.len() - idx,
    {
        let ghost before = out@;
        match &evs[idx] {
            RenderDoc::Line(i) => {
                out.append("\n");
                proof {
                    reveal_strlit("\n");
                    reveal_strlit(" ");
                    assert(out@ =~= before + seq!['\n'] + spaces(0));
                }
                let mut j: usize = 0;
                while j < *i
                    invariant
                        j <= *i,
                        out@ == before + seq!['\n'] + spaces(j as nat),
                    decreases *i - j,
                {
                    let ghost prev = out@;
                    out.append(" ");
                    proof {
                        reveal_strlit(" ");
                    }
                    j = j + 1;
                    assert(out@ =~= prev + seq![' ']);
                    assert(spaces(j as nat) =~= spaces((j - 1) as nat) + seq![' ']);
                }
            },
            RenderDoc::Text(s, sty) => {
                if color {
                    let p = paint(*sty, *s);
                    out.append(p.as_str());
                } else {
                    out.append(*s);
                }
            },
        }
        proof {
            let t = all.take(idx + 1);
            assert(t.drop_last() =~= all.take(idx as int));
            assert(t.last() == evs@[idx as int].model());
            assert(out@ =~= output(t, color));
        }
        idx = idx + 1;
    }
    assert(all.take(idx as int) =~= all);
    out
}

/// A document prepared for writing at a given width, with or without color.
pub struct Display<'a> {
    pub(crate) color: bool,
    pub(crate) doc: &'a Doc,
    pub(crate) width: usize,
    pub(crate) style: ansi_term::Style,
}

impl<'a> Display<'a> {
    /// Whether text is painted.
    pub open(crate) spec fn color_spec(&self) -> bool {
        self.color
    }

    /// The model of the document to write.
    pub open(crate) spec fn doc_spec(&self) -> Tree {
        self.doc@
    }

    /// The target width.
    pub open(crate) spec fn width_spec(&self) -> nat {
        self.width as nat
    }

    /// The style in force outside every `Style` node.
    pub open(crate) spec fn style_spec(&self) -> ansi_term::Style {
        self.style
    }

    /// The document laid out at the width and written as text.
    pub fn to_string(&self) -> (r: String)
        requires
            self.doc_spec().fits_machine(),
        ensures
            r@ == rendered(self.width_spec(), self.doc_spec(), self.style_spec(), self.color_spec()),
    {
        let evs = layout_exec(self.width, &self.doc.inner, self.style);
        write_events(&evs, self.color)
    }
}

impl Doc {
    /// Returns a `Display` for the given width and color setting. Outside
    /// every `Style` node text is written in the plain style, which paints
    /// nothing.
    pub fn display_opts(&self, width: usize, color: bool) -> (r: Display)
        ensures
            r.doc_spec() == self@,
            r.width_spec() == width,
            r.color_spec() == color,
            forall|t: Seq<char>| #[trigger] painted(r.style_spec(), t) == t,
    {
        Display { color, doc: self, width, style: ansi_term::Style::new() }
    }
}

} // verus!
