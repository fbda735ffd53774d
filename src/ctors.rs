use vstd::prelude::*;
use vstd::string::{StrSliceExecFns, StringExecFns};
use vstd::utf8::encode_utf8;
use itertools::Itertools;
use crate::doc::{Doc, DocInner, Tree, lemma_flatten_wf, no_newline};

verus! {

/// The index of the first newline in `s`, or its length if it has none.
pub open spec fn first_newline(s: Seq<char>) -> nat
    decreases s.len(),
{
    if s.len() == 0 {
        0
    } else if s[0] == '\n' {
        0
    } else {
        1 + first_newline(s.drop_first())
    }
}

pub proof fn lemma_first_newline_bound(s: Seq<char>)
    ensures
        first_newline(s) <= s.len(),
        first_newline(s) < s.len() ==> s[first_newline(s) as int] == '\n',
        forall|q: int| 0 <= q < first_newline(s) ==> s[q] != '\n',
    decreases s.len(),
{
    if s.len() > 0 && s[0] != '\n' {
        lemma_first_newline_bound(s.drop_first());
        assert forall|q: int| 0 <= q < first_newline(s) implies s[q] != '\n' by {
            if q > 0 {
                assert(s[q] == s.drop_first()[q - 1]);
            }
        }
    }
}

/// The document for a string: its lines as text, separated by hard line breaks.
pub open spec fn text_doc(s: Seq<char>) -> Tree
    decreases s.len(),
{
    let i = first_newline(s);
    if i >= s.len() {
        Tree::Text(s)
    } else {
        Tree::Append(
            Box::new(Tree::Append(Box::new(Tree::Text(s.take(i as int))), Box::new(Tree::Line(None)))),
            Box::new(text_doc(s.skip((i + 1) as int))),
        )
    }
}

/// The concatenation of `items` with `sep` between each two of them; the
/// empty document when there are none.
pub open spec fn join_tree(sep: Tree, items: Seq<Tree>) -> Tree
    decreases items.len(),
{
    if items.len() == 0 {
        Tree::Text(seq![])
    } else if items.len() == 1 {
        items[0]
    } else {
        Tree::Append(
            Box::new(Tree::Append(Box::new(join_tree(sep, items.drop_last())), Box::new(sep))),
            Box::new(items.last()),
        )
    }
}

/// The concatenation of `items`, starting from the empty document.
pub open spec fn concat_tree(items: Seq<Tree>) -> Tree
    decreases items.len(),
{
    if items.len() == 0 {
        Tree::Text(seq![])
    } else {
        Tree::Append(Box::new(concat_tree(items.drop_last())), Box::new(items.last()))
    }
}

/// The grouped form of a document: an alternative between its flattened form
/// and itself.
pub open spec fn group_tree(d: Tree) -> Tree {
    Tree::Alt(Box::new(d.flatten()), Box::new(d))
}

/// The document that brackets `d` between `l` and `r`, with the content
/// nested by four.
pub open spec fn bracket_tree(d: Tree, l: Seq<char>, r: Seq<char>) -> Tree {
    let split = Tree::Line(Some(seq![]));
    let opened = Tree::Append(
        Box::new(Tree::Append(Box::new(text_doc(l)), Box::new(split))),
        Box::new(d),
    );
    group_tree(
        Tree::Append(
            Box::new(Tree::Append(Box::new(Tree::Nest(4, Box::new(opened))), Box::new(split))),
            Box::new(text_doc(r)),
        ),
    )
}

/// The models of a sequence of documents.
pub open spec fn docs_model(items: Seq<Doc>) -> Seq<Tree> {
    items.map_values(|d: Doc| d@)
}

pub proof fn lemma_text_doc_no_newline(s: Seq<char>)
    requires
        forall|q: int| 0 <= q < s.len() ==> s[q] != '\n',
    ensures
        text_doc(s) == Tree::Text(s),
{
    lemma_first_newline_at(s, s.len() as int);
}

pub proof fn lemma_first_newline_at(s: Seq<char>, i: int)
    requires
        0 <= i <= s.len(),
        forall|q: int| 0 <= q < i ==> s[q] != '\n',
        i < s.len() ==> s[i] == '\n',
    ensures
        first_newline(s) == i,
    decreases s.len(),
{
    if i > 0 {
        assert forall|q: int| 0 <= q < i - 1 implies s.drop_first()[q] != '\n' by {
            assert(s.drop_first()[q] == s[q + 1]);
        }
        lemma_first_newline_at(s.drop_first(), i - 1);
    }
}

/// Whether every document of a sequence is well formed.
pub open spec fn all_wf(items: Seq<Tree>) -> bool {
    forall|j: int| 0 <= j < items.len() ==> #[trigger] items[j].wf()
}

/// The document of a string is well formed: its newlines are line breaks.
pub proof fn lemma_text_doc_wf(s: Seq<char>)
    ensures
        text_doc(s).wf(),
    decreases s.len(),
{
    lemma_first_newline_bound(s);
    let i = first_newline(s);
    if i < s.len() {
        lemma_text_doc_wf(s.skip((i + 1) as int));
        reveal_with_fuel(Tree::wf, 3);
    }
}

pub proof fn lemma_join_wf(sep: Tree, items: Seq<Tree>)
    requires
        sep.wf(),
        all_wf(items),
    ensures
        join_tree(sep, items).wf(),
    decreases items.len(),
{
    if items.len() > 1 {
        assert(all_wf(items.drop_last())) by {
            assert forall|j: int| 0 <= j < items.drop_last().len() implies #[trigger] items.drop_last()[j].wf() by {
                assert(items.drop_last()[j] == items[j]);
            }
        }
        assert(items[items.len() - 1] == items.last());
        assert(items[items.len() - 1].wf());
        lemma_join_wf(sep, items.drop_last());
        reveal_with_fuel(Tree::wf, 3);
    } else if items.len() == 1 {
        assert(items[0].wf());
    }
}

pub proof fn lemma_concat_wf(items: Seq<Tree>)
    requires
        all_wf(items),
    ensures
        concat_tree(items).wf(),
    decreases items.len(),
{
    if items.len() > 0 {
        assert(all_wf(items.drop_last())) by {
            assert forall|j: int| 0 <= j < items.drop_last().len() implies #[trigger] items.drop_last()[j].wf() by {
                assert(items.drop_last()[j] == items[j]);
            }
        }
        assert(items[items.len() - 1] == items.last());
        assert(items[items.len() - 1].wf());
        lemma_concat_wf(items.drop_last());
    }
}

/// One step of `join`: `l`, then the separator, then `r`.
fn join_pair(sep: &Doc, l: Doc, r: Doc) -> (d: Doc)
    ensures
        d@ == Tree::Append(Box::new(Tree::Append(Box::new(l@), Box::new(sep@))), Box::new(r@)),
{
    l.append(sep.clone()).append(r)
}

/// Relies on `itertools::Itertools::fold1`, which returns `None` for no
/// items and otherwise folds the items from the left, starting from the first.
#[verifier::external_body]
fn fold_joined(sep: &Doc, items: Vec<Doc>) -> (r: Option<Doc>)
    ensures
        r.is_none() == (items@.len() == 0),
        r.is_some() ==> r.unwrap()@ == join_tree(sep@, docs_model(items@)),
{
    items.into_iter().fold1(|l, r| join_pair(sep, l, r))
}

/// The totals of two children side by side: the deeper indentation and the
/// sum of their text.
fn add_totals(
    l: Option<(usize, usize)>,
    r: Option<(usize, usize)>,
    Ghost(x): Ghost<Tree>,
    Ghost(y): Ghost<Tree>,
) -> (t: Option<(usize, usize)>)
    requires
        match l {
            Some((a, b)) => a == x.nest_depth() && b == x.text_total() && a + b <= usize::MAX,
            None => x.nest_depth() + x.text_total() > usize::MAX,
        },
        match r {
            Some((a, b)) => a == y.nest_depth() && b == y.text_total() && a + b <= usize::MAX,
            None => y.nest_depth() + y.text_total() > usize::MAX,
        },
    ensures
        ({
            let depth = if x.nest_depth() >= y.nest_depth() {
                x.nest_depth()
            } else {
                y.nest_depth()
            };
            let text = x.text_total() + y.text_total();
            match t {
                Some((a, b)) => a == depth && b == text && a + b <= usize::MAX,
                None => depth + text > usize::MAX,
            }
        }),
{
    match (l, r) {
        (Some((a1, b1)), Some((a2, b2))) => {
            let a = if a1 >= a2 {
                a1
            } else {
                a2
            };
            match b1.checked_add(b2) {
                Some(b) => match a.checked_add(b) {
                    Some(_) => Some((a, b)),
                    None => None,
                },
                None => None,
            }
        },
        _ => None,
    }
}

/// The deepest indentation and the total text length of `d`, when their
/// sum fits in a `usize`.
fn machine_total(d: &DocInner) -> (r: Option<(usize, usize)>)
    ensures
        match r {
            Some((a, b)) => a == d@.nest_depth() && b == d@.text_total() && a + b <= usize::MAX,
            None => d@.nest_depth() + d@.text_total() > usize::MAX,
        },
    decreases d,
{
    match d {
        DocInner::Alt(x, y) => {
            let t = add_totals(machine_total(x), machine_total(y), Ghost(x@), Ghost(y@));
            assert(d@ == Tree::Alt(Box::new(x@), Box::new(y@)));
            t
        },
        DocInner::Append(x, y) => {
            let t = add_totals(machine_total(x), machine_total(y), Ghost(x@), Ghost(y@));
            assert(d@ == Tree::Append(Box::new(x@), Box::new(y@)));
            t
        },
        DocInner::Nest(j, x) => match machine_total(x) {
            Some((a, b)) => match a.checked_add(*j) {
                Some(a) => match a.checked_add(b) {
                    Some(_) => Some((a, b)),
                    None => None,
                },
                None => None,
            },
            None => None,
        },
        DocInner::Style(_, x) => machine_total(x),
        DocInner::Line(Some(s)) => {
            let n = s.as_bytes().len();
            Some((0, n))
        },
        DocInner::Line(None) => Some((0, 0)),
        DocInner::Text(s) => Some((0, s.as_str().as_bytes().len())),
    }
}

// The basic constructors, i.e. functions that don't take self and return Doc.
impl Doc {
    /// Returns an empty `Doc`.
    pub fn empty() -> (r: Doc)
        ensures
            r@ == Tree::Text(seq![]),
            r@.wf(),
    {
        Doc::from_inner(DocInner::Text(String::new()))
    }

    /// Expands to a newline, which will never be shortened.
    pub fn line() -> (r: Doc)
        ensures
            r@ == Tree::Line(None),
            r@.wf(),
    {
        Doc::from_inner(DocInner::Line(None))
    }

    /// Expands to the given string, if it will fit, or a newline if it won't.
    pub fn line_or(s: &'static str) -> (r: Doc)
        ensures
            r@ == Tree::Line(Some(s@)),
            r@.wf() == no_newline(s@),
    {
        Doc::from_inner(DocInner::Line(Some(s)))
    }

    /// Concatenates `Doc`s, putting newlines between them.
    pub fn lines(items: Vec<Doc>) -> (r: Doc)
        ensures
            r@ == join_tree(Tree::Line(None), docs_model(items@)),
            all_wf(docs_model(items@)) ==> r@.wf(),
    {
        Doc::line().join(items)
    }

    /// Returns a `Doc` that always expands to a space.
    pub fn nbsp() -> (r: Doc)
        ensures
            r@ == Tree::Text(seq![' ']),
            r@.wf(),
    {
        let r = Doc::text(" ");
        proof {
            lemma_text_doc_wf(" "@);
            reveal_strlit(" ");
            assert(" "@ =~= seq![' ']);
            lemma_text_doc_no_newline(seq![' ']);
        }
        r
    }

    /// Returns a `Doc` that expands to a space if it will fit, or a newline
    /// if it won't.
    pub fn space() -> (r: Doc)
        ensures
            r@ == Tree::Line(Some(seq![' '])),
            r@.wf(),
    {
        proof {
            reveal_strlit(" ");
            assert(" "@ =~= seq![' ']);
        }
        Doc::line_or(" ")
    }

    /// Returns a `Doc` that represents a point where a line may be split if
    /// needed.
    pub fn split_point() -> (r: Doc)
        ensures
            r@ == Tree::Line(Some(seq![])),
            r@.wf(),
    {
        proof {
            reveal_strlit("");
            assert(""@ =~= Seq::<char>::empty());
        }
        Doc::line_or("")
    }

    /// Converts a string into a `Doc`: each newline in it becomes a hard
    /// line break, which no grouping collapses.
    pub fn text(s: &str) -> (r: Doc)
        ensures
            r@ == text_doc(s@),
            r@.wf(),
    {
        let n = s.unicode_len();
        let ghost v = s@;
        let mut end: usize = n;
        let mut j: usize = n;
        let mut tail: Option<DocInner> = None;
        while j > 0
            invariant
                v == s@,
                n == v.len(),
                j <= end <= n,
                forall|q: int| j <= q < end ==> v[q] != '\n',
                tail is None ==> end == n,
                tail matches Some(t) ==> end < n && v[end as int] == '\n' && t@ == text_doc(
                    v.subrange(end + 1, n as int),
                ),
            decreases j,
        {
            if s.get_char(j - 1) == '\n' {
                let part = String::from_str(s.substring_char(j, end));
                tail = Some(Doc::combine(part, tail, Ghost(v), j, end));
                end = j - 1;
            }
            j = j - 1;
        }
        let part = String::from_str(s.substring_char(0, end));
        let d = Doc::combine(part, tail, Ghost(v), 0, end);
        assert(v.subrange(0, n as int) =~= v);
        proof {
            lemma_text_doc_wf(v);
        }
        Doc::from_inner(d)
    }

    /// The document for `v[start..]`, given its first line `part` and the
    /// document for what follows the newline that ends it, if any.
    fn combine(part: String, tail: Option<DocInner>, Ghost(v): Ghost<Seq<char>>, start: usize, end: usize) -> (r: DocInner)
        requires
            start <= end <= v.len(),
            part@ == v.subrange(start as int, end as int),
            forall|q: int| start <= q < end ==> v[q] != '\n',
            tail is None ==> end == v.len(),
            tail matches Some(t) ==> end < v.len() && v[end as int] == '\n' && t@ == text_doc(
                v.subrange(end + 1, v.len() as int),
            ),
        ensures
            r@ == text_doc(v.subrange(start as int, v.len() as int)),
    {
        let ghost u = v.subrange(start as int, v.len() as int);
        match tail {
            None => {
                proof {
                    assert(u =~= part@);
                    assert forall|q: int| 0 <= q < u.len() implies u[q] != '\n' by {
                        assert(u[q] == v[start + q]);
                    }
                    lemma_text_doc_no_newline(u);
                }
                DocInner::Text(part)
            },
            Some(t) => {
                proof {
                    let i = end - start;
                    assert forall|q: int| 0 <= q < i implies u[q] != '\n' by {
                        assert(u[q] == v[start + q]);
                    }
                    assert(u[i] == v[end as int]);
                    lemma_first_newline_at(u, i);
                    assert(u.take(i) =~= part@);
                    assert(u.skip(i + 1) =~= v.subrange(end + 1, v.len() as int));
                }
                let r = DocInner::Append(
                    Box::new(DocInner::Append(Box::new(DocInner::Text(part)), Box::new(DocInner::Line(None)))),
                    Box::new(t),
                );
                proof {
                    reveal_with_fuel(DocInner::model, 3);
                }
                r
            },
        }
    }

    /// Whether every indent and column that laying out this document can
    /// reach fits in a `usize`, as `Display::to_string` requires.
    pub fn fits_machine(&self) -> (r: bool)
        ensures
            r == self@.fits_machine(),
    {
        machine_total(&self.inner).is_some()
    }
}

// Constructing combinators, i.e. functions that take self and return Doc.
impl Doc {
    /// Appends one `Doc` to another.
    pub fn append(self, right: Doc) -> (r: Doc)
        ensures
            r@ == Tree::Append(Box::new(self@), Box::new(right@)),
            self@.wf() && right@.wf() ==> r@.wf(),
    {
        Doc::from_inner(DocInner::Append(Box::new(self.inner), Box::new(right.inner)))
    }

    /// Brackets a `Doc` between two constant strings.
    pub fn bracket(self, l: &'static str, r: &'static str) -> (d: Doc)
        ensures
            d@ == bracket_tree(self@, l@, r@),
            self@.wf() ==> d@.wf(),
    {
        proof {
            lemma_text_doc_wf(l@);
            lemma_text_doc_wf(r@);
        }
        Doc::text(l).append(Doc::split_point()).append(self).nest(4).append(Doc::split_point()).append(
            Doc::text(r),
        ).group()
    }

    /// Groups the contents of a `Doc`.
    pub fn group(self) -> (r: Doc)
        ensures
            r@ == group_tree(self@),
            self@.wf() ==> r@.wf(),
    {
        let inner = self.inner;
        let flat = inner.deep_copy().flatten();
        proof {
            if self@.wf() {
                lemma_flatten_wf(self@);
            }
        }
        Doc::from_inner(DocInner::Alt(Box::new(flat), Box::new(inner)))
    }

    /// Joins `Doc`s, placing the `self` `Doc` between them.
    pub fn join(self, items: Vec<Doc>) -> (r: Doc)
        ensures
            r@ == join_tree(self@, docs_model(items@)),
            self@.wf() && all_wf(docs_model(items@)) ==> r@.wf(),
    {
        proof {
            if self@.wf() && all_wf(docs_model(items@)) {
                lemma_join_wf(self@, docs_model(items@));
            }
        }
        match fold_joined(&self, items) {
            Some(d) => d,
            None => Doc::empty(),
        }
    }

    /// The single-line form of the `Doc`: every collapsible line becomes
    /// the string it collapses to, every alternative its flat side, and
    /// nesting is dropped. Hard lines stay.
    pub fn flatten(self) -> (r: Doc)
        ensures
            r@ == self@.flatten(),
            self@.wf() ==> r@.wf(),
    {
        proof {
            if self@.wf() {
                lemma_flatten_wf(self@);
            }
        }
        Doc::from_inner(self.inner.flatten())
    }

    /// Nests the `Doc` with the given amount of indentation.
    pub fn nest(self, n: usize) -> (r: Doc)
        ensures
            r@ == Tree::Nest(n as nat, Box::new(self@)),
            self@.wf() ==> r@.wf(),
    {
        Doc::from_inner(DocInner::Nest(n, Box::new(self.inner)))
    }

    /// Applies a style to a `Doc`.
    pub fn style(self, style: ansi_term::Style) -> (r: Doc)
        ensures
            r@ == Tree::Style(style, Box::new(self@)),
            self@.wf() ==> r@.wf(),
    {
        Doc::from_inner(DocInner::Style(style, Box::new(self.inner)))
    }

    /// Concatenates `Doc`s in order, without separators.
    pub fn from_iter(items: Vec<Doc>) -> (r: Doc)
        ensures
            r@ == concat_tree(docs_model(items@)),
            all_wf(docs_model(items@)) ==> r@.wf(),
    {
        let n = items.len();
        let mut items = items;
        let ghost all = docs_model(items@);
        // Popping every item reverses them; popping again restores the order.
        let mut rev: Vec<Doc> = Vec::new();
        while items.len() > 0
            invariant
                all.len() == n,
                items@.len() + rev@.len() == n,
                forall|q: int| 0 <= q < items@.len() ==> #[trigger] items@[q]@ == all[q],
                forall|q: int| 0 <= q < rev@.len() ==> #[trigger] rev@[q]@ == all[n - 1 - q],
            decreases items@.len(),
        {
            let ghost before = items@;
            let d = items.pop().unwrap();
            rev.push(d);
            proof {
                assert forall|q: int| 0 <= q < items@.len() implies #[trigger] items@[q]@ == all[q] by {
                    assert(items@[q] == before[q]);
                }
            }
        }
        let mut inner = DocInner::Text(String::new());
        let mut idx: usize = 0;
        assert(all.take(0) =~= Seq::<Tree>::empty());
        while rev.len() > 0
            invariant
                all.len() == n,
                idx + rev@.len() == n,
                forall|q: int| 0 <= q < rev@.len() ==> #[trigger] rev@[q]@ == all[n - 1 - q],
                inner@ == concat_tree(all.take(idx as int)),
            decreases rev@.len(),
        {
            let ghost before = rev@;
            let d = rev.pop().unwrap();
            proof {
                assert(d@ == before[before.len() - 1]@);
                assert(d@ == all[idx as int]);
                assert(all.take(idx + 1).drop_last() =~= all.take(idx as int));
                assert forall|q: int| 0 <= q < rev@.len() implies #[trigger] rev@[q]@ == all[n - 1 - q] by {
                    assert(rev@[q] == before[q]);
                }
            }
            inner = DocInner::Append(Box::new(inner), Box::new(d.inner));
            idx = idx + 1;
        }
        assert(all.take(idx as int) =~= all);
        proof {
            if all_wf(all) {
                lemma_concat_wf(all);
            }
        }
        Doc::from_inner(inner)
    }
}

impl From<&'static str> for Doc {
    /// Converts a string as `Doc::text` does.
    fn from(s: &'static str) -> (r: Doc)
        ensures
            r@ == text_doc(s@),
            r@.wf(),
    {
        Doc::text(s)
    }
}

impl From<String> for Doc {
    /// Converts a string as `Doc::text` does.
    fn from(s: String) -> (r: Doc)
        ensures
            r@ == text_doc(s@),
            r@.wf(),
    {
        Doc::text(s.as_str())
    }
}

impl vstd::std_specs::convert::FromSpecImpl<&'static str> for Doc {
    open spec fn obeys_from_spec() -> bool {
        false
    }

    open spec fn from_spec(v: &'static str) -> Doc {
        arbitrary()
    }
}

impl vstd::std_specs::convert::FromSpecImpl<String> for Doc {
    open spec fn obeys_from_spec() -> bool {
        false
    }

    open spec fn from_spec(v: String) -> Doc {
        arbitrary()
    }
}

/// Values that can be turned into a `Doc`.
pub trait Sparkly {
    /// Returns a `Doc` corresponding to the value.
    fn to_doc(&self) -> Doc;
}

impl Sparkly for Doc {
    fn to_doc(&self) -> Doc {
        self.clone()
    }
}

impl<'a, T: Sparkly> Sparkly for &'a T {
    fn to_doc(&self) -> Doc {
        (*self).to_doc()
    }
}

} // verus!
