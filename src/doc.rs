use vstd::prelude::*;
use vstd::string::StringExecFns;
use vstd::utf8::encode_utf8;
use crate::render::painted;

verus! {

/// The styling value carried by `Style` nodes. It is opaque here: the layout
/// only carries it from a `Style` node to the text emitted beneath it.
#[verifier::external_type_specification]
#[verifier::external_body]
pub struct ExStyle(ansi_term::Style);

/// Relies on `ansi_term::Style::new`, which returns the style with no
/// attribute set: painting with it writes no control sequence before or
/// after the text, so the text comes out as it is.
pub assume_specification[ ansi_term::Style::new ]() -> (r: ansi_term::Style)
    ensures
        forall|t: Seq<char>| #[trigger] painted(r, t) == t,
;

/// The length of a string in UTF-8 bytes: the number of columns the layout
/// gives it.
pub open spec fn byte_len(s: Seq<char>) -> nat {
    encode_utf8(s).len()
}

/// The byte length of two strings one after the other is the sum of theirs.
pub proof fn lemma_byte_len_concat(a: Seq<char>, b: Seq<char>)
    ensures
        byte_len(a + b) == byte_len(a) + byte_len(b),
    decreases a.len(),
{
    if a.len() == 0 {
        assert(a + b =~= b);
    } else {
        assert((a + b)[0] == a[0]);
        assert((a + b).drop_first() =~= a.drop_first() + b);
        lemma_byte_len_concat(a.drop_first(), b);
    }
}

/// Whether a string holds no newline.
pub open spec fn no_newline(s: Seq<char>) -> bool {
    forall|q: int| 0 <= q < s.len() ==> s[q] != '\n'
}

/// Flattening keeps a document well formed.
pub proof fn lemma_flatten_wf(d: Tree)
    requires
        d.wf(),
    ensures
        d.flatten().wf(),
    decreases d,
{
    match d {
        Tree::Alt(x, _) => lemma_flatten_wf(*x),
        Tree::Append(x, y) => {
            lemma_flatten_wf(*x);
            lemma_flatten_wf(*y);
        },
        Tree::Nest(_, x) => lemma_flatten_wf(*x),
        Tree::Style(_, x) => lemma_flatten_wf(*x),
        _ => {},
    }
}

/// The mathematical model of a document: the same six kinds of node as
/// `DocInner`, with text as character sequences and indents as naturals.
pub enum Tree {
    Alt(Box<Tree>, Box<Tree>),
    Append(Box<Tree>, Box<Tree>),
    Line(Option<Seq<char>>),
    Nest(nat, Box<Tree>),
    Style(ansi_term::Style, Box<Tree>),
    Text(Seq<char>),
}

impl Tree {
    /// The single-line form of a document: collapsible lines become their
    /// collapse string, alternatives become their flat side, nesting is
    /// dropped, and hard lines stay.
    pub open spec fn flatten(self) -> Tree
        decreases self,
    {
        match self {
            Tree::Append(l, r) => Tree::Append(Box::new(l.flatten()), Box::new(r.flatten())),
            Tree::Nest(_, x) => x.flatten(),
            Tree::Text(s) => Tree::Text(s),
            Tree::Line(Some(s)) => Tree::Text(s),
            Tree::Line(None) => Tree::Line(None),
            Tree::Alt(x, _) => x.flatten(),
            Tree::Style(s, x) => Tree::Style(s, Box::new(x.flatten())),
        }
    }

    /// The number of nodes, used as a termination measure.
    pub open spec fn size(self) -> nat
        decreases self,
    {
        match self {
            Tree::Alt(x, y) => 1 + x.size() + y.size(),
            Tree::Append(x, y) => 1 + x.size() + y.size(),
            Tree::Nest(_, x) => 1 + x.size(),
            Tree::Style(_, x) => 1 + x.size(),
            _ => 1,
        }
    }

    /// The total byte length of all text in the tree, collapse strings
    /// included, counting both sides of every alternative.
    pub open spec fn text_total(self) -> nat
        decreases self,
    {
        match self {
            Tree::Alt(x, y) => x.text_total() + y.text_total(),
            Tree::Append(x, y) => x.text_total() + y.text_total(),
            Tree::Nest(_, x) => x.text_total(),
            Tree::Style(_, x) => x.text_total(),
            Tree::Line(Some(s)) => byte_len(s),
            Tree::Line(None) => 0,
            Tree::Text(s) => byte_len(s),
        }
    }

    /// The largest sum of indentation deltas along any path from the root.
    pub open spec fn nest_depth(self) -> nat
        decreases self,
    {
        match self {
            Tree::Alt(x, y) => if x.nest_depth() >= y.nest_depth() {
                x.nest_depth()
            } else {
                y.nest_depth()
            },
            Tree::Append(x, y) => if x.nest_depth() >= y.nest_depth() {
                x.nest_depth()
            } else {
                y.nest_depth()
            },
            Tree::Nest(j, x) => j + x.nest_depth(),
            Tree::Style(_, x) => x.nest_depth(),
            _ => 0,
        }
    }

    /// Whether no text and no collapse string in the tree holds a newline,
    /// so that the layout's column count is the length of the current line.
    pub open spec fn wf(self) -> bool
        decreases self,
    {
        match self {
            Tree::Alt(x, y) => x.wf() && y.wf(),
            Tree::Append(x, y) => x.wf() && y.wf(),
            Tree::Nest(_, x) => x.wf(),
            Tree::Style(_, x) => x.wf(),
            Tree::Line(Some(s)) => no_newline(s),
            Tree::Line(None) => true,
            Tree::Text(s) => no_newline(s),
        }
    }

    /// Whether every indent and column the layout can reach fits in a
    /// `usize`: the deepest indentation plus all the text does.
    pub open spec fn fits_machine(self) -> bool {
        self.nest_depth() + self.text_total() <= usize::MAX
    }
}

/// A document node. Text never holds a line break; a line holds the string it
/// collapses to, if any.
#[derive(Debug, PartialEq)]
pub enum DocInner {
    /// Two renderings of the same content: the flat one first.
    Alt(Box<DocInner>, Box<DocInner>),
    /// Concatenation, with no break between the two.
    Append(Box<DocInner>, Box<DocInner>),
    /// A line break; it collapses to the string, or cannot collapse if there is none.
    Line(Option<&'static str>),
    /// Raises the indentation of the lines inside by the given amount.
    Nest(usize, Box<DocInner>),
    /// Applies a style to all text inside.
    Style(ansi_term::Style, Box<DocInner>),
    /// Literal text.
    Text(String),
}

impl DocInner {
    /// The model of the node and everything beneath it.
    pub open spec fn model(&self) -> Tree
        decreases self,
    {
        match self {
            DocInner::Alt(x, y) => Tree::Alt(Box::new(x.model()), Box::new(y.model())),
            DocInner::Append(x, y) => Tree::Append(Box::new(x.model()), Box::new(y.model())),
            DocInner::Line(None) => Tree::Line(None),
            DocInner::Line(Some(s)) => Tree::Line(Some(s@)),
            DocInner::Nest(j, x) => Tree::Nest(*j as nat, Box::new(x.model())),
            DocInner::Style(s, x) => Tree::Style(*s, Box::new(x.model())),
            DocInner::Text(s) => Tree::Text(s@),
        }
    }
}

impl View for DocInner {
    type V = Tree;

    open spec fn view(&self) -> Tree {
        self.model()
    }
}

impl DocInner {
    /// A copy of the node and everything beneath it.
    pub fn deep_copy(&self) -> (r: DocInner)
        ensures
            r@ == self@,
        decreases self,
    {
        match self {
            DocInner::Alt(x, y) => DocInner::Alt(Box::new(x.deep_copy()), Box::new(y.deep_copy())),
            DocInner::Append(x, y) => DocInner::Append(
                Box::new(x.deep_copy()),
                Box::new(y.deep_copy()),
            ),
            DocInner::Line(o) => DocInner::Line(*o),
            DocInner::Nest(j, x) => DocInner::Nest(*j, Box::new(x.deep_copy())),
            DocInner::Style(s, x) => DocInner::Style(*s, Box::new(x.deep_copy())),
            DocInner::Text(s) => DocInner::Text(s.clone()),
        }
    }

    /// Flattens a document, converting every collapsible line break to the
    /// string it collapses to.
    pub fn flatten(self) -> (r: DocInner)
        ensures
            r@ == self@.flatten(),
        decreases self,
    {
        match self {
            DocInner::Append(l, r) => {
                let l = l.flatten();
                let r = r.flatten();
                DocInner::Append(Box::new(l), Box::new(r))
            },
            DocInner::Nest(_, x) => x.flatten(),
            DocInner::Text(s) => DocInner::Text(s),
            DocInner::Line(Some(s)) => DocInner::Text(String::from_str(s)),
            DocInner::Line(None) => DocInner::Line(None),
            DocInner::Alt(x, _) => x.flatten(),
            DocInner::Style(s, d) => DocInner::Style(s, Box::new(d.flatten())),
        }
    }
}

/// A pretty-printable document.
#[derive(Debug, PartialEq)]
pub struct Doc {
    pub(crate) inner: DocInner,
}

impl View for Doc {
    type V = Tree;

    open(crate) spec fn view(&self) -> Tree {
        self.inner@
    }
}

impl Doc {
    pub(crate) fn from_inner(inner: DocInner) -> (r: Doc)
        ensures
            r@ == inner@,
    {
        Doc { inner }
    }
}

impl Clone for Doc {
    fn clone(&self) -> (r: Doc)
        ensures
            r@ == self@,
    {
        Doc { inner: self.inner.deep_copy() }
    }
}

} // verus!
