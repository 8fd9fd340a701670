//! The forms that an editor dims: `#_` forms, and `(comment …)` blocks outside quoted
//! data.

use vstd::prelude::*;
use crate::lsp::Range;
use crate::syntax::{lemma_children, parse_source, syntax_of, Form, FormView, Kind};
use crate::text::str_eq;

verus! {

broadcast use lemma_children;

/// Whether a form is no form of its own: a comment, a discarded form, or metadata.
pub open spec fn is_gap(kind: Kind) -> bool {
    kind == Kind::Comment || kind == Kind::DisExpr || kind == Kind::MetaLit || kind
        == Kind::OldMetaLit
}

/// Where the first form of a list, from `i` on, stands.
pub open spec fn first_form(list: FormView, i: nat) -> Option<nat>
    decreases list.children.len() - i,
{
    if i >= list.children.len() {
        None
    } else if is_gap(list.children[i as int].kind) {
        first_form(list, i + 1)
    } else {
        Some(i)
    }
}

/// The first form of a list, where it is a symbol.
pub open spec fn head_of(list: FormView) -> Option<FormView> {
    match first_form(list, 0) {
        Some(i) => if list.children[i as int].kind == Kind::SymLit {
            Some(list.children[i as int])
        } else {
            None
        },
        None => None,
    }
}

/// The first form of a list, where it is a symbol.
pub fn head_symbol(list: &Form) -> (r: Option<&Form>)
    ensures
        match r {
            Some(f) => head_of(list@) == Some(f@),
            None => head_of(list@) is None,
        },
{
    let mut i: usize = 0;
    while i < list.children.len()
        invariant
            i <= list.children@.len(),
            first_form(list@, 0) == first_form(list@, i as nat),
        decreases list.children@.len() - i,
    {
        assert(list@.children[i as int] == list.children@[i as int]@);
        let kind = list.children[i].kind;
        if kind != Kind::Comment && kind != Kind::DisExpr && kind != Kind::MetaLit && kind
            != Kind::OldMetaLit {
            return if kind == Kind::SymLit {
                Some(&list.children[i])
            } else {
                None
            };
        }
        i += 1;
    }
    None
}

/// Whether a list is a `(comment …)` block, or a `(clojure.core/comment …)` one.
pub open spec fn comment_form(list: FormView) -> bool {
    match head_of(list) {
        Some(head) => {
            &&& head.name matches Some(name) && name.text == "comment"@
            &&& head.namespace matches Some(ns) ==> ns.text == "clojure.core"@
        },
        None => false,
    }
}

/// Whether a list is a `(comment …)` block.
pub fn is_comment_form(list: &Form) -> (r: bool)
    ensures
        r == comment_form(list@),
{
    match head_symbol(list) {
        Some(head) => {
            let named = match &head.name {
                Some(name) => str_eq(name.text.as_str(), "comment"),
                None => false,
            };
            named && match &head.namespace {
                Some(ns) => str_eq(ns.text.as_str(), "clojure.core"),
                None => true,
            }
        },
        None => false,
    }
}

/// Whether a list is a `(quote …)`.
pub open spec fn quote_form(list: FormView) -> bool {
    match head_of(list) {
        Some(head) => head.namespace is None && (head.name matches Some(name) && name.text
            == "quote"@),
        None => false,
    }
}

/// Whether a list is a `(quote …)`.
pub fn is_quote_form(list: &Form) -> (r: bool)
    ensures
        r == quote_form(list@),
{
    match head_symbol(list) {
        Some(head) => {
            let named = match &head.name {
                Some(name) => str_eq(name.text.as_str(), "quote"),
                None => false,
            };
            named && head.namespace.is_none()
        },
        None => false,
    }
}

/// Whether what is inside a form is data.
pub open spec fn quotes(f: FormView) -> bool {
    f.kind == Kind::QuotingLit || f.kind == Kind::SynQuotingLit || (f.kind == Kind::ListLit
        && quote_form(f))
}

/// The forms to dim in a form, in reading order; `quoted` where the form is data.
pub open spec fn ignored_in(f: FormView, quoted: bool) -> Seq<Range>
    decreases f, f.children.len() + 1,
{
    if f.kind == Kind::DisExpr || (!quoted && f.kind == Kind::ListLit && comment_form(f)) {
        seq![f.range]
    } else {
        ignored_in_children(f, quoted || quotes(f), f.children.len())
    }
}

/// The forms to dim in the first `n` children of a form.
pub open spec fn ignored_in_children(f: FormView, quoted: bool, n: nat) -> Seq<Range>
    decreases f, n,
{
    if n == 0 || n > f.children.len() {
        seq![]
    } else {
        ignored_in_children(f, quoted, (n - 1) as nat) + ignored_in(f.children[n - 1], quoted)
    }
}

fn walk(f: &Form, quoted: bool, out: &mut Vec<Range>)
    ensures
        final(out)@ == old(out)@ + ignored_in(f@, quoted),
    decreases f@,
{
    let ghost before = out@;
    if f.kind == Kind::DisExpr || (!quoted && f.kind == Kind::ListLit && is_comment_form(f)) {
        out.push(f.range);
        assert(out@ =~= before + ignored_in(f@, quoted));
        return;
    }
    let inner = quoted || f.kind == Kind::QuotingLit || f.kind == Kind::SynQuotingLit || (f.kind
        == Kind::ListLit && is_quote_form(f));
    let mut i: usize = 0;
    assert(before + ignored_in_children(f@, inner, 0) =~= before);
    while i < f.children.len()
        invariant
            i <= f.children@.len(),
            out@ == before + ignored_in_children(f@, inner, i as nat),
        decreases f.children@.len() - i,
    {
        assert(decreases_to!(f@ => f@.children[i as int]));
        walk(&f.children[i], inner, out);
        assert(out@ =~= before + ignored_in_children(f@, inner, (i + 1) as nat));
        i += 1;
    }
}

/// The forms to dim in `source`, in reading order.
pub fn ignored_form_ranges(source: &str) -> (r: Vec<Range>)
    ensures
        r@ == (match syntax_of(source@) {
            Some(root) => ignored_in(root, false),
            None => seq![],
        }),
{
    let mut out: Vec<Range> = Vec::new();
    if let Some(root) = parse_source(source) {
        walk(&root, false, &mut out);
        assert(out@ =~= ignored_in(root@, false));
    }
    out
}

/// A `(comment …)` block in quoted data is data, and stays as bright as the rest of it.
pub proof fn law_quoted_comments_are_data(f: FormView)
    requires
        f.kind == Kind::ListLit,
    ensures
        ignored_in(f, true) == ignored_in_children(f, true, f.children.len()),
{
}

/// A `#_` form is dimmed whether it is quoted or not.
pub proof fn law_discards_are_always_ignored(f: FormView, quoted: bool)
    requires
        f.kind == Kind::DisExpr,
    ensures
        ignored_in(f, quoted) == seq![f.range],
{
}

/// Whether the range is that of the form that the path leads to, and the form is a discarded
/// one, or a `comment` that is not quoted, inside no other such form.
pub open spec fn ignored_stands(f: FormView, quoted: bool, path: Seq<int>, range: Range) -> bool
    decreases path.len(),
{
    if path.len() == 0 {
        f.range == range && (f.kind == Kind::DisExpr || (!quoted && f.kind == Kind::ListLit && comment_form(
            f,
        )))
    } else {
        let i = path[0];
        &&& 0 <= i < f.children.len()
        &&& !(f.kind == Kind::DisExpr || (!quoted && f.kind == Kind::ListLit && comment_form(f)))
        &&& ignored_stands(f.children[i], quoted || quotes(f), path.drop_first(), range)
    }
}

proof fn lemma_ignored_in_stands(f: FormView, quoted: bool, range: Range) -> (path: Seq<int>)
    requires
        ignored_in(f, quoted).contains(range),
    ensures
        ignored_stands(f, quoted, path, range),
    decreases f, f.children.len() + 1,
{
    if f.kind == Kind::DisExpr || (!quoted && f.kind == Kind::ListLit && comment_form(f)) {
        Seq::empty()
    } else {
        lemma_ignored_in_children_stands(f, quoted, f.children.len(), range)
    }
}

proof fn lemma_ignored_in_children_stands(f: FormView, quoted: bool, n: nat, range: Range) -> (path: Seq<int>)
    requires
        !(f.kind == Kind::DisExpr || (!quoted && f.kind == Kind::ListLit && comment_form(f))),
        ignored_in_children(f, quoted || quotes(f), n).contains(range),
    ensures
        ignored_stands(f, quoted, path, range),
    decreases f, n,
{
    let before = ignored_in_children(f, quoted || quotes(f), (n - 1) as nat);
    let k = ignored_in_children(f, quoted || quotes(f), n).index_of(range);
    if k < before.len() {
        assert(before[k] == range);
        lemma_ignored_in_children_stands(f, quoted, (n - 1) as nat, range)
    } else {
        let last = ignored_in(f.children[n - 1], quoted || quotes(f));
        assert(last[k - before.len()] == range);
        let rest = lemma_ignored_in_stands(f.children[n - 1], quoted || quotes(f), range);
        assert((seq![n - 1] + rest).drop_first() =~= rest);
        seq![n - 1] + rest
    }
}

proof fn lemma_ignored_in_holds(f: FormView, quoted: bool, path: Seq<int>, range: Range)
    requires
        ignored_stands(f, quoted, path, range),
    ensures
        ignored_in(f, quoted).contains(range),
    decreases path.len(),
{
    if path.len() > 0 {
        let i = path[0];
        lemma_ignored_in_holds(f.children[i], quoted || quotes(f), path.drop_first(), range);
        lemma_ignored_in_children_holds(f, quoted, f.children.len(), i, range);
    } else {
        assert(ignored_in(f, quoted)[0] == range);
    }
}

proof fn lemma_ignored_in_children_holds(f: FormView, quoted: bool, n: nat, i: int, range: Range)
    requires
        0 <= i < n <= f.children.len(),
        !(f.kind == Kind::DisExpr || (!quoted && f.kind == Kind::ListLit && comment_form(f))),
        ignored_in(f.children[i], quoted || quotes(f)).contains(range),
    ensures
        ignored_in_children(f, quoted || quotes(f), n).contains(range),
    decreases n,
{
    let before = ignored_in_children(f, quoted || quotes(f), (n - 1) as nat);
    let last = ignored_in(f.children[n - 1], quoted || quotes(f));
    let all = ignored_in_children(f, quoted || quotes(f), n);
    if i < n - 1 {
        lemma_ignored_in_children_holds(f, quoted, (n - 1) as nat, i, range);
        assert(all[before.index_of(range)] == range);
    } else {
        assert(all[before.len() + last.index_of(range)] == range);
    }
}

/// The ranges are those of all forms that are discarded or commented out, however deep they
/// stand, but for what stands inside another one or is quoted.
pub proof fn law_ignored_forms_are_all_found(f: FormView, quoted: bool, range: Range)
    ensures
        ignored_in(f, quoted).contains(range) <==> exists|path: Seq<int>| #[trigger]
            ignored_stands(f, quoted, path, range),
{
    if ignored_in(f, quoted).contains(range) {
        let path = lemma_ignored_in_stands(f, quoted, range);
        assert(ignored_stands(f, quoted, path, range));
    }
    if exists|path: Seq<int>| #[trigger] ignored_stands(f, quoted, path, range) {
        let path = choose|path: Seq<int>| #[trigger] ignored_stands(f, quoted, path, range);
        lemma_ignored_in_holds(f, quoted, path, range);
    }
}

}
