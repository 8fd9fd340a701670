//! Code actions: requiring a namespace that a usage lacks, and cleaning up the requires
//! of a file.

use vstd::prelude::*;
use crate::collect::{dict_get, push_item, strs, Copied};
use crate::document::{DocumentStore, StoreView};
use crate::handlers::clean_ns::{clean_edits, clean_ns_edits};
use crate::handlers::completion::lists_namespaces;
use crate::handlers::indent::{blank_string, blanks};
use crate::handlers::matching::has_prefix;
use crate::handlers::references::lemma_concat_contains;
use crate::index::extractor::{
    analysis_of, extract, first_token_is, no_config, qualify, starts_with_token,
};
use crate::index::jdk::{simple_name, simple_name_of};
use crate::index::model::{NsMeta, NsMetaView};
use crate::index::symbols::{at, Index, IndexView};
use crate::lsp::{Diagnostic, DiagnosticView, Position, Range, TextEdit, TextEditView};
use crate::sort::{
    by_rank, law_sorting_keeps_everything, lemma_push_contains, rank_le, ranked, sort_ranked, RankView,
    Ranked,
};
use crate::syntax::{lemma_children, parse_source, syntax_of, Form, FormView, Kind};
use crate::text::{concat2, concat3, law_split_at_the_first, split_first, split_once, str_eq};

verus! {

broadcast use lemma_children;

/// The kind of a fix for a finding.
pub const QUICKFIX: &'static str = "quickfix";

/// The kind of an action that tidies a file's imports.
pub const ORGANIZE_IMPORTS: &'static str = "source.organizeImports";

/// Whether the editor wants actions of the kind: it asks for everything, for the kind,
/// or for a kind that it is part of.
pub open spec fn wants(only: Seq<Seq<char>>, kind: Seq<char>) -> bool {
    only.len() == 0 || exists|i: int|
        0 <= i < only.len() && (kind == #[trigger] only[i] || (only[i] + "."@).is_prefix_of(kind))
}

/// Whether the editor wants actions of the kind; no list asks for everything.
pub fn kind_allowed(only: &Option<Vec<String>>, kind: &str) -> (r: bool)
    ensures
        r == (match only {
            Some(kinds) => wants(strs(kinds@), kind@),
            None => true,
        }),
{
    let kinds = match only {
        Some(kinds) => kinds,
        None => return true,
    };
    if kinds.len() == 0 {
        return true;
    }
    let ghost all = strs(kinds@);
    let mut i: usize = 0;
    while i < kinds.len()
        invariant
            i <= kinds@.len(),
            *only == Some(*kinds),
            all == strs(kinds@),
            forall|j: int|
                0 <= j < i ==> !(kind@ == #[trigger] all[j] || (all[j] + "."@).is_prefix_of(
                    kind@,
                )),
        decreases kinds@.len() - i,
    {
        assert(all[i as int] == kinds@[i as int]@);
        if str_eq(kind, kinds[i].as_str()) || has_prefix(
            kind,
            concat2(kinds[i].as_str(), ".").as_str(),
        ) {
            return true;
        }
        i += 1;
    }
    false
}

/// A namespace that, if required, would resolve a usage.
#[derive(Clone, Debug, PartialEq, Eq)]
pub struct Candidate {
    pub namespace: String,
    pub alias: Option<String>,
}

/// What a [`Candidate`] says.
pub ghost struct CandidateView {
    pub namespace: Seq<char>,
    pub alias: Option<Seq<char>>,
}

impl DeepView for Candidate {
    type V = CandidateView;

    open spec fn deep_view(&self) -> CandidateView {
        CandidateView { namespace: self.namespace@, alias: self.alias.deep_view() }
    }
}

impl CandidateView {
    /// How it is written in a `:require` clause.
    pub open spec fn written(self) -> Seq<char> {
        match self.alias {
            Some(alias) => "["@ + self.namespace + " :as "@ + alias + "]"@,
            None => "["@ + self.namespace + "]"@,
        }
    }
}

impl Candidate {
    /// How it is written in a `:require` clause.
    pub fn spec(&self) -> (r: String)
        ensures
            r@ == self.deep_view().written(),
    {
        match &self.alias {
            Some(alias) => {
                let mut out = concat3("[", self.namespace.as_str(), " :as ");
                out.append(alias.as_str());
                out.append("]");
                out
            },
            None => concat3("[", self.namespace.as_str(), "]"),
        }
    }
}

/// The namespace that an alias stands for by convention.
pub open spec fn conventional(alias: Seq<char>) -> Option<Seq<char>> {
    if alias == "str"@ {
        Some("clojure.string"@)
    } else if alias == "set"@ {
        Some("clojure.set"@)
    } else if alias == "io"@ {
        Some("clojure.java.io"@)
    } else if alias == "edn"@ {
        Some("clojure.edn"@)
    } else if alias == "walk"@ {
        Some("clojure.walk"@)
    } else if alias == "pp"@ {
        Some("clojure.pprint"@)
    } else if alias == "async"@ {
        Some("clojure.core.async"@)
    } else if alias == "sh"@ {
        Some("clojure.java.shell"@)
    } else {
        None
    }
}

/// The namespace that an alias stands for by convention.
pub fn curated_alias(alias: &str) -> (r: Option<&'static str>)
    ensures
        match r {
            Some(ns) => conventional(alias@) == Some(ns@),
            None => conventional(alias@) is None,
        },
{
    if str_eq(alias, "str") {
        Some("clojure.string")
    } else if str_eq(alias, "set") {
        Some("clojure.set")
    } else if str_eq(alias, "io") {
        Some("clojure.java.io")
    } else if str_eq(alias, "edn") {
        Some("clojure.edn")
    } else if str_eq(alias, "walk") {
        Some("clojure.walk")
    } else if str_eq(alias, "pp") {
        Some("clojure.pprint")
    } else if str_eq(alias, "async") {
        Some("clojure.core.async")
    } else if str_eq(alias, "sh") {
        Some("clojure.java.shell")
    } else {
        None
    }
}

/// How a namespace answers to a prefix: by convention, as its full name, or as its last
/// segment. The nearest counts.
pub open spec fn answers(v: IndexView, prefix: Seq<char>, ns: Seq<char>) -> Option<u64> {
    if conventional(prefix) == Some(ns) {
        Some(0)
    } else if !v.namespaces.dom().contains(ns) {
        None
    } else if ns == prefix {
        Some(1)
    } else if simple_name_of(ns) == prefix {
        Some(2)
    } else {
        None
    }
}

/// Whether requiring the namespace would resolve the name: it defines it, and is not the
/// file's own.
pub open spec fn provides(v: IndexView, meta: NsMetaView, name: Seq<char>, ns: Seq<char>) -> bool {
    ns != meta.name && at(v.symbols, qualify(ns, name)) is Some
}

/// The namespace that a prefix stands for by convention, where it would do.
pub open spec fn conventional_hit(v: IndexView, meta: NsMetaView, prefix: Seq<char>, name: Seq<char>) -> Seq<
    RankView,
> {
    match conventional(prefix) {
        Some(ns) => if provides(v, meta, name, ns) {
            seq![RankView { tier: 0, size: 0, name: ns }]
        } else {
            seq![]
        },
        None => seq![],
    }
}

/// Those of the first `n` namespaces `names` that answer to the prefix and would do.
pub open spec fn indexed_hits(
    v: IndexView,
    meta: NsMetaView,
    prefix: Seq<char>,
    name: Seq<char>,
    names: Seq<Seq<char>>,
    n: nat,
) -> Seq<RankView>
    decreases n,
{
    if n == 0 {
        seq![]
    } else {
        let before = indexed_hits(v, meta, prefix, name, names, (n - 1) as nat);
        let ns = names[n - 1];
        match answers(v, prefix, ns) {
            Some(rank) => if rank > 0 && provides(v, meta, name, ns) {
                before.push(RankView { tier: rank, size: 0, name: ns })
            } else {
                before
            },
            None => before,
        }
    }
}

/// The candidate of a hit. A namespace used by its full name gets no alias.
pub open spec fn candidate_of(hit: RankView, prefix: Seq<char>) -> CandidateView {
    CandidateView {
        namespace: hit.name,
        alias: if hit.tier == 1 {
            None
        } else {
            Some(prefix)
        },
    }
}

/// The namespaces that could be required to resolve a usage, the best first; `names` are
/// the index's namespaces. There is none for a prefix that resolves already.
pub open spec fn candidates_for(
    v: IndexView,
    meta: NsMetaView,
    token: Seq<char>,
    names: Seq<Seq<char>>,
) -> Seq<CandidateView> {
    match split_first(token, '/') {
        Some((prefix, name)) => if prefix.len() == 0 || name.len() == 0 || prefix
            == "clojure.core"@ || meta.prefix_resolves(prefix) {
            seq![]
        } else {
            let hits = ranked(
                conventional_hit(v, meta, prefix, name) + indexed_hits(
                    v,
                    meta,
                    prefix,
                    name,
                    names,
                    names.len(),
                ),
            );
            Seq::new(hits.len(), |i: int| candidate_of(hits[i], prefix))
        },
        None => seq![],
    }
}

fn does_provide(index: &Index, meta: &NsMeta, name: &str, ns: &str) -> (r: bool)
    ensures
        r == provides(index@, meta.deep_view(), name@, ns@),
{
    !str_eq(ns, meta.name.as_str()) && index.lookup_in_ns(ns, name).is_some()
}

fn collect_hits(
    index: &Index,
    meta: &NsMeta,
    prefix: &str,
    name: &str,
    names: &Vec<String>,
) -> (r: Vec<Ranked>)
    requires
        lists_namespaces(index@, strs(names@)),
    ensures
        r.deep_view() == conventional_hit(index@, meta.deep_view(), prefix@, name@)
            + indexed_hits(
            index@,
            meta.deep_view(),
            prefix@,
            name@,
            strs(names@),
            names@.len(),
        ),
{
    let ghost mv = meta.deep_view();
    let ghost all = strs(names@);
    let mut hits: Vec<Ranked> = Vec::new();
    assert(hits.deep_view() =~= seq![]);
    let curated = curated_alias(prefix);
    if let Some(ns) = curated {
        if does_provide(index, meta, name, ns) {
            push_item(&mut hits, Ranked { tier: 0, size: 0, name: ns.to_owned() });
        }
    }
    let ghost first = hits.deep_view();
    assert(first =~= conventional_hit(index@, mv, prefix@, name@));
    let mut i: usize = 0;
    assert(first + seq![] =~= first);
    while i < names.len()
        invariant
            i <= names@.len(),
            all == strs(names@),
            lists_namespaces(index@, all),
            mv == meta.deep_view(),
            match curated {
                Some(ns) => conventional(prefix@) == Some(ns@),
                None => conventional(prefix@) is None,
            },
            hits.deep_view() == first + indexed_hits(
                index@,
                mv,
                prefix@,
                name@,
                all,
                i as nat,
            ),
        decreases names@.len() - i,
    {
        let ns = names[i].as_str();
        assert(all[i as int] == ns@);
        assert(all.contains(ns@));
        let ghost done = indexed_hits(index@, mv, prefix@, name@, all, i as nat);
        let known = match curated {
            Some(c) => str_eq(c, ns),
            None => false,
        };
        if !known {
            let tier: u64 = if str_eq(ns, prefix) {
                1
            } else if str_eq(simple_name(ns).as_str(), prefix) {
                2
            } else {
                0
            };
            if tier > 0 && does_provide(index, meta, name, ns) {
                push_item(&mut hits, Ranked { tier, size: 0, name: ns.to_owned() });
                let ghost x = hits.deep_view().last();
                assert((first + done).push(x) =~= first + done.push(x));
            }
        }
        i += 1;
    }
    hits
}

/// The namespaces that could be required to resolve the usage `token`.
pub fn candidates(index: &Index, ns_meta: &NsMeta, token: &str) -> (r: Vec<Candidate>)
    ensures
        exists|names: Seq<Seq<char>>|
            lists_namespaces(index@, names) && r.deep_view() == #[trigger] candidates_for(
                index@,
                ns_meta.deep_view(),
                token@,
                names,
            ),
{
    let names = index.namespace_names();
    let ghost all = strs(names@);
    let ghost mv = ns_meta.deep_view();
    assert(lists_namespaces(index@, all));
    let ghost goal = candidates_for(index@, mv, token@, all);
    let mut out: Vec<Candidate> = Vec::new();
    assert(out.deep_view() =~= seq![]);
    let (prefix, name) = match split_once(token, '/') {
        Some((prefix, name)) => (prefix, name),
        None => {
            assert(out.deep_view() == goal);
            return out;
        },
    };
    if prefix.as_str().is_empty() || name.as_str().is_empty() || str_eq(
        prefix.as_str(),
        "clojure.core",
    ) || ns_meta.resolves_prefix(prefix.as_str()) {
        assert(out.deep_view() == goal);
        return out;
    }
    let hits = sort_ranked(
        collect_hits(index, ns_meta, prefix.as_str(), name.as_str(), &names),
    );
    let ghost hv = hits.deep_view();
    let mut i: usize = 0;
    while i < hits.len()
        invariant
            i <= hits@.len(),
            hv == hits.deep_view(),
            out.deep_view() =~= Seq::new(i as nat, |j: int| candidate_of(hv[j], prefix@)),
        decreases hits@.len() - i,
    {
        assert(hv[i as int] == hits@[i as int].deep_view());
        let alias = if hits[i].tier == 1 {
            None
        } else {
            Some(prefix.clone())
        };
        push_item(&mut out, Candidate { namespace: hits[i].name.clone(), alias });
        i += 1;
    }
    assert(out.deep_view() =~= goal);
    out
}

/// The first top-level `(ns …)` form from `i` on.
pub open spec fn ns_index(root: FormView, i: nat) -> Option<nat>
    decreases root.children.len() - i,
{
    if i >= root.children.len() {
        None
    } else if root.children[i as int].kind == Kind::ListLit && starts_with_token(
        root.children[i as int],
        Kind::SymLit,
        "ns"@,
    ) {
        Some(i)
    } else {
        ns_index(root, i + 1)
    }
}

pub(crate) fn find_ns(root: &Form) -> (r: Option<usize>)
    ensures
        match r {
            Some(i) => ns_index(root@, 0) == Some(i as nat) && i < root@.children.len(),
            None => ns_index(root@, 0) is None,
        },
{
    let mut i: usize = 0;
    while i < root.children.len()
        invariant
            i <= root.children@.len(),
            ns_index(root@, 0) == ns_index(root@, i as nat),
        decreases root.children@.len() - i,
    {
        assert(root@.children[i as int] == root.children@[i as int]@);
        if root.children[i].kind == Kind::ListLit && first_token_is(
            &root.children[i],
            Kind::SymLit,
            "ns",
        ) {
            return Some(i);
        }
        i += 1;
    }
    None
}

/// Whether the form is a `(:require …)` clause.
pub open spec fn require_clause(f: FormView) -> bool {
    f.kind == Kind::ListLit && starts_with_token(f, Kind::KwdLit, ":require"@)
}

pub(crate) fn is_require_clause(f: &Form) -> (r: bool)
    ensures
        r == require_clause(f@),
{
    f.kind == Kind::ListLit && first_token_is(f, Kind::KwdLit, ":require")
}

/// The first `(:require …)` clause from `i` on.
pub open spec fn require_index(ns: FormView, i: nat) -> Option<nat>
    decreases ns.children.len() - i,
{
    if i >= ns.children.len() {
        None
    } else if require_clause(ns.children[i as int]) {
        Some(i)
    } else {
        require_index(ns, i + 1)
    }
}

/// The first child from `i` on that is no keyword.
pub open spec fn first_spec(clause: FormView, i: nat) -> Option<nat>
    decreases clause.children.len() - i,
{
    if i >= clause.children.len() {
        None
    } else if clause.children[i as int].kind != Kind::KwdLit {
        Some(i)
    } else {
        first_spec(clause, i + 1)
    }
}

/// The last of the first `n` children that is no keyword.
pub open spec fn last_spec(clause: FormView, n: nat) -> Option<nat>
    decreases n,
{
    if n == 0 || n > clause.children.len() {
        None
    } else if clause.children[n - 1].kind != Kind::KwdLit {
        Some((n - 1) as nat)
    } else {
        last_spec(clause, (n - 1) as nat)
    }
}

/// An insertion at a position.
pub open spec fn insertion(pos: Position, new_text: Seq<char>) -> TextEditView {
    TextEditView { range: Range { start: pos, end: pos }, new_text }
}

/// The edit that writes `spec` into the `ns` form: after the last spec of its first
/// `:require` clause, under the first one, or in a clause of its own at its end.
pub open spec fn require_edit_in(ns: FormView, spec: Seq<char>) -> TextEditView {
    match require_index(ns, 0) {
        Some(k) => {
            let clause = ns.children[k as int];
            match (first_spec(clause, 0), last_spec(clause, clause.children.len())) {
                (Some(a), Some(b)) => insertion(
                    clause.children[b as int].range.end,
                    "\n"@ + blanks(clause.children[a as int].column as nat) + spec,
                ),
                _ => insertion(
                    clause.children[0].range.end,
                    "\n"@ + blanks((clause.column + 1) as nat) + spec,
                ),
            }
        },
        None => insertion(
            if ns.children.len() > 0 {
                ns.children.last().range.end
            } else {
                ns.range.end
            },
            "\n  (:require "@ + spec + ")"@,
        ),
    }
}

fn find_require(ns: &Form) -> (r: Option<usize>)
    ensures
        match r {
            Some(i) => require_index(ns@, 0) == Some(i as nat) && i < ns@.children.len()
                && ns@.children[i as int].children.len() > 0,
            None => require_index(ns@, 0) is None,
        },
{
    let mut i: usize = 0;
    while i < ns.children.len()
        invariant
            i <= ns.children@.len(),
            require_index(ns@, 0) == require_index(ns@, i as nat),
        decreases ns.children@.len() - i,
    {
        assert(ns@.children[i as int] == ns.children@[i as int]@);
        if is_require_clause(&ns.children[i]) {
            return Some(i);
        }
        i += 1;
    }
    None
}

fn find_first_spec(clause: &Form) -> (r: Option<usize>)
    ensures
        match r {
            Some(i) => first_spec(clause@, 0) == Some(i as nat) && i < clause@.children.len(),
            None => first_spec(clause@, 0) is None,
        },
{
    let mut i: usize = 0;
    while i < clause.children.len()
        invariant
            i <= clause.children@.len(),
            first_spec(clause@, 0) == first_spec(clause@, i as nat),
        decreases clause.children@.len() - i,
    {
        assert(clause@.children[i as int] == clause.children@[i as int]@);
        if clause.children[i].kind != Kind::KwdLit {
            return Some(i);
        }
        i += 1;
    }
    None
}

fn find_last_spec(clause: &Form) -> (r: Option<usize>)
    ensures
        match r {
            Some(i) => last_spec(clause@, clause@.children.len()) == Some(i as nat) && i
                < clause@.children.len(),
            None => last_spec(clause@, clause@.children.len()) is None,
        },
{
    let mut n: usize = clause.children.len();
    while n > 0
        invariant
            n <= clause.children@.len(),
            last_spec(clause@, clause@.children.len()) == last_spec(clause@, n as nat),
        decreases n,
    {
        assert(clause@.children[n - 1] == clause.children@[n - 1]@);
        if clause.children[n - 1].kind != Kind::KwdLit {
            return Some(n - 1);
        }
        n -= 1;
    }
    None
}

fn insert_at(pos: Position, new_text: String) -> (r: TextEdit)
    ensures
        r.deep_view() == insertion(pos, new_text@),
{
    TextEdit { range: Range::new(pos, pos), new_text }
}

fn new_line(indent: usize, one_more: bool, spec: &str) -> (r: String)
    ensures
        r@ == "\n"@ + blanks(
            (indent + (if one_more {
                1int
            } else {
                0
            })) as nat,
        ) + spec@,
{
    let mut pad = blank_string(indent);
    if one_more {
        pad.push(' ');
        assert(pad@ =~= blanks((indent + 1) as nat));
    }
    concat3("\n", pad.as_str(), spec)
}

fn edit_ns(ns: &Form, spec: &str) -> (r: TextEdit)
    ensures
        r.deep_view() == require_edit_in(ns@, spec@),
{
    match find_require(ns) {
        Some(k) => {
            let clause = &ns.children[k];
            assert(ns@.children[k as int] == clause@);
            let (first, last) = (find_first_spec(clause), find_last_spec(clause));
            match first {
                Some(a) => match last {
                    Some(b) => {
                        assert(clause@.children[a as int] == clause.children@[a as int]@);
                        assert(clause@.children[b as int] == clause.children@[b as int]@);
                        return insert_at(
                            clause.children[b].range.end,
                            new_line(clause.children[a].column, false, spec),
                        );
                    },
                    None => {},
                },
                None => {},
            }
            assert(clause@.children[0] == clause.children@[0]@);
            insert_at(clause.children[0].range.end, new_line(clause.column, true, spec))
        },
        None => {
            let n: usize = ns.children.len();
            let pos = if n > 0 {
                assert(ns@.children[n - 1] == ns.children@[n - 1]@);
                ns.children[n - 1].range.end
            } else {
                ns.range.end
            };
            insert_at(pos, concat3("\n  (:require ", spec, ")"))
        },
    }
}

/// The edit that writes `spec` into the `ns` form of `source`; `None` where there is no
/// such form.
pub open spec fn require_edit_of(source: Seq<char>, spec: Seq<char>) -> Option<TextEditView> {
    match syntax_of(source) {
        Some(root) => match ns_index(root, 0) {
            Some(k) => Some(require_edit_in(root.children[k as int], spec)),
            None => None,
        },
        None => None,
    }
}

/// The edit that writes `spec` into the `ns` form of `source`.
pub fn require_edit(source: &str, spec: &str) -> (r: Option<TextEdit>)
    ensures
        r.deep_view() == require_edit_of(source@, spec@),
{
    match parse_source(source) {
        Some(root) => match find_ns(&root) {
            Some(k) => {
                assert(root@.children[k as int] == root.children@[k as int]@);
                Some(edit_ns(&root.children[k], spec))
            },
            None => None,
        },
        None => None,
    }
}

/// An action that the editor offers.
#[derive(Clone, Debug)]
pub struct CodeAction {
    pub title: String,
    pub kind: String,
    /// The findings that it fixes.
    pub diagnostics: Vec<Diagnostic>,
    /// The edits of the document.
    pub edits: Vec<TextEdit>,
}

/// What a [`CodeAction`] says.
pub ghost struct ActionView {
    pub title: Seq<char>,
    pub kind: Seq<char>,
    pub diagnostics: Seq<DiagnosticView>,
    pub edits: Seq<TextEditView>,
}

impl DeepView for CodeAction {
    type V = ActionView;

    open spec fn deep_view(&self) -> ActionView {
        ActionView {
            title: self.title@,
            kind: self.kind@,
            diagnostics: self.diagnostics.deep_view(),
            edits: self.edits.deep_view(),
        }
    }
}

/// Those of the first `n` findings that are of a namespace that does not resolve.
pub open spec fn unresolved(found: Seq<DiagnosticView>, n: nat) -> Seq<DiagnosticView>
    decreases n,
{
    if n == 0 {
        seq![]
    } else {
        let before = unresolved(found, (n - 1) as nat);
        if found[n - 1].code == Some("unresolved-namespace"@) {
            before.push(found[n - 1])
        } else {
            before
        }
    }
}

fn keep_unresolved(found: &Vec<Diagnostic>) -> (r: Vec<Diagnostic>)
    ensures
        r.deep_view() == unresolved(found.deep_view(), found@.len()),
{
    let ghost all = found.deep_view();
    let mut out: Vec<Diagnostic> = Vec::new();
    assert(out.deep_view() =~= seq![]);
    let mut i: usize = 0;
    while i < found.len()
        invariant
            i <= found@.len(),
            all == found.deep_view(),
            out.deep_view() == unresolved(all, i as nat),
        decreases found@.len() - i,
    {
        assert(all[i as int] == found@[i as int].deep_view());
        if let Some(code) = &found[i].code {
            if str_eq(code.as_str(), "unresolved-namespace") {
                push_item(&mut out, found[i].copied());
            }
        }
        i += 1;
    }
    out
}

/// The action that requires a candidate.
pub open spec fn require_action(
    candidate: CandidateView,
    edit: TextEditView,
    fixed: Seq<DiagnosticView>,
) -> ActionView {
    ActionView {
        title: "Add require `"@ + candidate.written() + "`"@,
        kind: QUICKFIX@,
        diagnostics: fixed,
        edits: seq![edit],
    }
}

/// The actions that require the first `n` of the candidates.
pub open spec fn require_actions(
    source: Seq<char>,
    found: Seq<CandidateView>,
    fixed: Seq<DiagnosticView>,
    n: nat,
) -> Seq<ActionView>
    decreases n,
{
    if n == 0 {
        seq![]
    } else {
        let before = require_actions(source, found, fixed, (n - 1) as nat);
        match require_edit_of(source, found[n - 1].written()) {
            Some(edit) => before.push(require_action(found[n - 1], edit, fixed)),
            None => before,
        }
    }
}

fn copy_all(list: &Vec<Diagnostic>) -> (r: Vec<Diagnostic>)
    ensures
        r.deep_view() == list.deep_view(),
{
    let mut out: Vec<Diagnostic> = Vec::new();
    let mut i: usize = 0;
    while i < list.len()
        invariant
            i <= list@.len(),
            out.deep_view() =~= list.deep_view().take(i as int),
        decreases list@.len() - i,
    {
        push_item(&mut out, list[i].copied());
        i += 1;
    }
    assert(out.deep_view() =~= list.deep_view());
    out
}

fn build_require_actions(source: &str, found: &Vec<Candidate>, fixed: &Vec<Diagnostic>) -> (r: Vec<
    CodeAction,
>)
    ensures
        r.deep_view() == require_actions(
            source@,
            found.deep_view(),
            fixed.deep_view(),
            found@.len(),
        ),
{
    let ghost all = found.deep_view();
    let mut out: Vec<CodeAction> = Vec::new();
    assert(out.deep_view() =~= seq![]);
    let mut i: usize = 0;
    while i < found.len()
        invariant
            i <= found@.len(),
            all == found.deep_view(),
            out.deep_view() == require_actions(source@, all, fixed.deep_view(), i as nat),
        decreases found@.len() - i,
    {
        assert(all[i as int] == found@[i as int].deep_view());
        let spec = found[i].spec();
        if let Some(edit) = require_edit(source, spec.as_str()) {
            let ghost ev = edit.deep_view();
            let mut edits: Vec<TextEdit> = Vec::new();
            edits.push(edit);
            assert(edits.deep_view() =~= seq![ev]);
            push_item(
                &mut out,
                CodeAction {
                    title: concat3("Add require `", spec.as_str(), "`"),
                    kind: QUICKFIX.to_owned(),
                    diagnostics: copy_all(fixed),
                    edits,
                },
            );
        }
        i += 1;
    }
    out
}

/// The actions that would resolve the word of a text; `names` are the index's namespaces.
pub open spec fn fixes_for(
    v: IndexView,
    source: Seq<char>,
    path: Seq<char>,
    word: Option<Seq<char>>,
    found: Seq<DiagnosticView>,
    names: Seq<Seq<char>>,
) -> Seq<ActionView> {
    match (word, analysis_of(source, path, no_config())) {
        (Some(word), Some(a)) => {
            let cs = candidates_for(v, a.meta, word, names);
            require_actions(source, cs, unresolved(found, found.len()), cs.len())
        },
        _ => seq![],
    }
}

/// The action that cleans the requires of a file, where there is something to clean.
pub open spec fn clean_action(source: Seq<char>) -> Seq<ActionView> {
    if clean_edits(source).len() > 0 {
        seq![
            ActionView {
                title: "Clean namespace"@,
                kind: ORGANIZE_IMPORTS@,
                diagnostics: seq![],
                edits: clean_edits(source),
            },
        ]
    } else {
        seq![]
    }
}

/// The kinds that the editor asks for; everything where it gives none.
pub open spec fn asks_for(only: Option<Vec<String>>, kind: Seq<char>) -> bool {
    match only {
        Some(kinds) => wants(strs(kinds@), kind),
        None => true,
    }
}

/// The actions at a position of the open document `uri`, which is the file `path`; `names`
/// are the index's namespaces.
pub open spec fn actions_at(
    v: IndexView,
    store: StoreView,
    uri: Seq<char>,
    path: Seq<char>,
    pos: Position,
    only: Option<Vec<String>>,
    found: Seq<DiagnosticView>,
    names: Seq<Seq<char>>,
) -> Seq<ActionView> {
    match store.text(uri) {
        Some(text) => (if asks_for(only, QUICKFIX@) {
            fixes_for(v, text, path, store.word(uri, pos), found, names)
        } else {
            seq![]
        }) + (if asks_for(only, ORGANIZE_IMPORTS@) {
            clean_action(text)
        } else {
            seq![]
        }),
        None => seq![],
    }
}

/// The actions that would resolve the word at a position of the open document `uri`.
pub fn add_require_actions(
    index: &Index,
    documents: &DocumentStore,
    uri: &str,
    path: &str,
    source: &str,
    pos: Position,
    found: &Vec<Diagnostic>,
) -> (r: Vec<CodeAction>)
    ensures
        exists|names: Seq<Seq<char>>|
            lists_namespaces(index@, names) && r.deep_view() == #[trigger] fixes_for(
                index@,
                source@,
                path@,
                documents@.word(uri@, pos),
                found.deep_view(),
                names,
            ),
{
    let listed = index.namespace_names();
    let ghost any = strs(listed@);
    assert(lists_namespaces(index@, any));
    let ghost word_view = documents@.word(uri@, pos);
    let ghost fv = found.deep_view();
    let ghost goal = fixes_for(index@, source@, path@, word_view, fv, any);
    let none: Vec<CodeAction> = Vec::new();
    assert(none.deep_view() =~= seq![]);
    let word = match documents.word_at(uri, pos) {
        Some(word) => word,
        None => {
            assert(none.deep_view() == goal);
            return none;
        },
    };
    let meta = match extract(source, path) {
        Ok((meta, _)) => meta,
        Err(_) => {
            assert(none.deep_view() == goal);
            return none;
        },
    };
    let fixed = keep_unresolved(found);
    let cs = candidates(index, &meta, word.as_str());
    let ghost names = choose|names: Seq<Seq<char>>|
        lists_namespaces(index@, names) && cs.deep_view() == #[trigger] candidates_for(
            index@,
            meta.deep_view(),
            word@,
            names,
        );
    let r = build_require_actions(source, &cs, &fixed);
    assert(r.deep_view() == fixes_for(index@, source@, path@, word_view, fv, names));
    r
}

/// The actions at a position of the open document `uri`, which is the file `path`; `None`
/// where there are none. `only` are the kinds that the editor asks for, and `found` the
/// findings that it shows there.
pub fn handle(
    index: &Index,
    documents: &DocumentStore,
    uri: &str,
    path: &str,
    pos: Position,
    only: &Option<Vec<String>>,
    found: &Vec<Diagnostic>,
) -> (r: Option<Vec<CodeAction>>)
    ensures
        exists|names: Seq<Seq<char>>|
            lists_namespaces(index@, names) && {
                let actions = #[trigger] actions_at(
                    index@,
                    documents@,
                    uri@,
                    path@,
                    pos,
                    *only,
                    found.deep_view(),
                    names,
                );
                match r {
                    Some(list) => list.deep_view() == actions && actions.len() > 0,
                    None => actions.len() == 0,
                }
            },
{
    let listed = index.namespace_names();
    let ghost any = strs(listed@);
    assert(lists_namespaces(index@, any));
    let ghost fv = found.deep_view();
    let ghost mut names = any;
    let text = match documents.text(uri) {
        Some(text) => text,
        None => {
            assert(actions_at(index@, documents@, uri@, path@, pos, *only, fv, any).len() == 0);
            return None;
        },
    };
    let mut actions: Vec<CodeAction> = Vec::new();
    assert(actions.deep_view() =~= seq![]);
    if kind_allowed(only, QUICKFIX) {
        actions = add_require_actions(index, documents, uri, path, text.as_str(), pos, found);
        proof {
            names = choose|names: Seq<Seq<char>>|
                lists_namespaces(index@, names) && actions.deep_view() == #[trigger] fixes_for(
                    index@,
                    text@,
                    path@,
                    documents@.word(uri@, pos),
                    fv,
                    names,
                );
        }
    }
    if kind_allowed(only, ORGANIZE_IMPORTS) {
        if let Some(edits) = clean_ns_edits(text.as_str()) {
            let diagnostics: Vec<Diagnostic> = Vec::new();
            assert(diagnostics.deep_view() =~= seq![]);
            push_item(
                &mut actions,
                CodeAction {
                    title: "Clean namespace".to_owned(),
                    kind: ORGANIZE_IMPORTS.to_owned(),
                    diagnostics,
                    edits,
                },
            );
        }
    }
    assert(actions.deep_view() =~= actions_at(
        index@,
        documents@,
        uri@,
        path@,
        pos,
        *only,
        fv,
        names,
    ));
    if actions.len() == 0 {
        None
    } else {
        Some(actions)
    }
}

/// No candidate is the file's own namespace, and each defines the name that is used.
pub proof fn law_candidates_define_the_name(
    v: IndexView,
    meta: NsMetaView,
    token: Seq<char>,
    names: Seq<Seq<char>>,
    i: int,
)
    requires
        0 <= i < candidates_for(v, meta, token, names).len(),
    ensures
        split_first(token, '/') matches Some((prefix, name)) && {
            let ns = candidates_for(v, meta, token, names)[i].namespace;
            &&& ns != meta.name
            &&& at(v.symbols, qualify(ns, name)) is Some
            &&& answers(v, prefix, ns) is Some
        },
{
    let (prefix, name) = split_first(token, '/')->0;
    let hits = conventional_hit(v, meta, prefix, name) + indexed_hits(
        v,
        meta,
        prefix,
        name,
        names,
        names.len(),
    );
    let sorted = ranked(hits);
    crate::sort::law_sorting_keeps_everything(hits);
    hits.to_multiset_ensures();
    sorted.to_multiset_ensures();
    assert(sorted.contains(sorted[i]));
    assert(hits.to_multiset().count(sorted[i]) > 0);
    assert(hits.contains(sorted[i]));
    lemma_indexed_hits(v, meta, prefix, name, names, names.len());
    let j = choose|j: int| 0 <= j < hits.len() && hits[j] == sorted[i];
    let first = conventional_hit(v, meta, prefix, name);
    if j >= first.len() {
        assert(hits[j] == indexed_hits(v, meta, prefix, name, names, names.len())[j - first.len()]);
    }
}

proof fn lemma_indexed_hits(
    v: IndexView,
    meta: NsMetaView,
    prefix: Seq<char>,
    name: Seq<char>,
    names: Seq<Seq<char>>,
    n: nat,
)
    ensures
        forall|i: int|
            0 <= i < indexed_hits(v, meta, prefix, name, names, n).len() ==> {
                let hit = #[trigger] indexed_hits(v, meta, prefix, name, names, n)[i];
                provides(v, meta, name, hit.name) && answers(v, prefix, hit.name) is Some
            },
    decreases n,
{
    if n > 0 {
        lemma_indexed_hits(v, meta, prefix, name, names, (n - 1) as nat);
    }
}

/// A prefix that resolves in the file already has no candidates.
pub proof fn law_no_candidates_for_what_resolves(
    v: IndexView,
    meta: NsMetaView,
    token: Seq<char>,
    names: Seq<Seq<char>>,
)
    requires
        split_first(token, '/') matches Some((prefix, _)) ==> meta.prefix_resolves(prefix),
    ensures
        candidates_for(v, meta, token, names).len() == 0,
{
}

/// Whether a candidate is how `prefix/name` can be made to mean something in the file: a
/// namespace other than its own that defines the name, either the one that the prefix is
/// the usual alias of, or one that the prefix names, which then needs no alias, or one whose
/// last segment it is.
pub open spec fn makes_sense(
    v: IndexView,
    meta: NsMetaView,
    prefix: Seq<char>,
    name: Seq<char>,
    c: CandidateView,
) -> bool {
    &&& c.namespace != meta.name
    &&& v.symbols.dom().contains(c.namespace + seq!['/'] + name)
    &&& {
        ||| conventional(prefix) == Some(c.namespace) && c.alias == Some(prefix)
        ||| conventional(prefix) != Some(c.namespace) && v.namespaces.dom().contains(c.namespace)
            && c.namespace == prefix && c.alias is None
        ||| conventional(prefix) != Some(c.namespace) && v.namespaces.dom().contains(c.namespace)
            && c.namespace != prefix && simple_name_of(c.namespace) == prefix && c.alias == Some(
            prefix,
        )
    }
}

proof fn lemma_hits_exactly(
    v: IndexView,
    meta: NsMetaView,
    prefix: Seq<char>,
    name: Seq<char>,
    names: Seq<Seq<char>>,
    n: nat,
    h: RankView,
)
    requires
        n <= names.len(),
    ensures
        indexed_hits(v, meta, prefix, name, names, n).contains(h) <==> {
            &&& exists|k: int| 0 <= k < n && #[trigger] names[k] == h.name
            &&& answers(v, prefix, h.name) == Some(h.tier)
            &&& h.tier > 0
            &&& h.size == 0
            &&& provides(v, meta, name, h.name)
        },
    decreases n,
{
    if n > 0 {
        let before = indexed_hits(v, meta, prefix, name, names, (n - 1) as nat);
        let after = indexed_hits(v, meta, prefix, name, names, n);
        lemma_hits_exactly(v, meta, prefix, name, names, (n - 1) as nat, h);
        if after.len() > before.len() {
            lemma_push_contains(before, after.last(), h);
        }
        if exists|k: int| 0 <= k < n - 1 && #[trigger] names[k] == h.name {
            let k = choose|k: int| 0 <= k < n - 1 && #[trigger] names[k] == h.name;
            assert(names[k] == h.name);
        }
        assert(names[n - 1] == names[n - 1]);
        if exists|k: int| 0 <= k < n && #[trigger] names[k] == h.name {
            let k = choose|k: int| 0 <= k < n && #[trigger] names[k] == h.name;
            if k < n - 1 {
                assert(names[k] == h.name);
            }
        }
    } else {
        assert(indexed_hits(v, meta, prefix, name, names, n) =~= seq![]);
    }
}

/// What is offered for a qualified word whose prefix stands for nothing is every namespace
/// that makes sense of it, and no other.
pub proof fn law_candidates_make_sense(
    v: IndexView,
    meta: NsMetaView,
    prefix: Seq<char>,
    name: Seq<char>,
    names: Seq<Seq<char>>,
    c: CandidateView,
)
    requires
        lists_namespaces(v, names),
        !prefix.contains('/'),
        prefix.len() > 0,
        name.len() > 0,
        prefix != "clojure.core"@,
        prefix != meta.name,
        dict_get(meta.aliases, prefix) is None,
        !meta.requires.contains(prefix),
    ensures
        candidates_for(v, meta, prefix + seq!['/'] + name, names).contains(c) <==> makes_sense(
            v,
            meta,
            prefix,
            name,
            c,
        ),
{
    law_split_at_the_first(prefix, '/', name);
    reveal_strlit("/");
    assert("/"@ =~= seq!['/']);
    let first = conventional_hit(v, meta, prefix, name);
    let rest = indexed_hits(v, meta, prefix, name, names, names.len());
    let hits = ranked(first + rest);
    let found = candidates_for(v, meta, prefix + seq!['/'] + name, names);
    law_sorting_keeps_everything(first + rest);
    (first + rest).to_multiset_ensures();
    hits.to_multiset_ensures();
    assert forall|h: RankView| #[trigger] hits.contains(h) <==> first.contains(h) || rest.contains(
        h,
    ) by {
        assert((first + rest).contains(h) <==> (first + rest).to_multiset().count(h) > 0);
        assert(hits.contains(h) <==> hits.to_multiset().count(h) > 0);
        lemma_concat_contains(first, rest, h);
    }
    if found.contains(c) {
        let i = found.index_of(c);
        let h = hits[i];
        assert(hits.contains(h));
        lemma_hits_exactly(v, meta, prefix, name, names, names.len(), h);
        assert(qualify(h.name, name) =~= h.name + seq!['/'] + name);
    }
    if makes_sense(v, meta, prefix, name, c) {
        let tier: u64 = if conventional(prefix) == Some(c.namespace) {
            0
        } else if c.namespace == prefix {
            1
        } else {
            2
        };
        let h = RankView { tier, size: 0, name: c.namespace };
        assert(qualify(h.name, name) =~= h.name + seq!['/'] + name);
        if tier == 0 {
            assert(first[0] == h);
        } else {
            assert(names.contains(c.namespace));
            assert(names[names.index_of(c.namespace)] == c.namespace);
            lemma_hits_exactly(v, meta, prefix, name, names, names.len(), h);
        }
        assert(hits.contains(h));
        assert(found[hits.index_of(h)] == c);
    }
}

/// The usual meaning of an alias is offered first, then the namespace of that very name, then
/// those whose last segment it is.
pub proof fn law_likelier_candidates_come_first(
    v: IndexView,
    meta: NsMetaView,
    prefix: Seq<char>,
    name: Seq<char>,
    names: Seq<Seq<char>>,
    i: int,
    j: int,
)
    requires
        lists_namespaces(v, names),
        !prefix.contains('/'),
        0 <= i < j < candidates_for(v, meta, prefix + seq!['/'] + name, names).len(),
    ensures
        ({
            let found = candidates_for(v, meta, prefix + seq!['/'] + name, names);
            &&& conventional(prefix) == Some(found[j].namespace) ==> conventional(prefix) == Some(
                found[i].namespace,
            )
            &&& found[j].namespace == prefix ==> found[i].namespace == prefix || conventional(
                prefix,
            ) == Some(found[i].namespace)
        }),
{
    law_split_at_the_first(prefix, '/', name);
    let first = conventional_hit(v, meta, prefix, name);
    let rest = indexed_hits(v, meta, prefix, name, names, names.len());
    let hits = ranked(first + rest);
    law_sorting_keeps_everything(first + rest);
    (first + rest).to_multiset_ensures();
    hits.to_multiset_ensures();
    assert forall|k: int| 0 <= k < hits.len() implies answers(v, prefix, (#[trigger] hits[k]).name)
        == Some(hits[k].tier) by {
        assert(hits.contains(hits[k]));
        assert((first + rest).contains(hits[k]) <==> (first + rest).to_multiset().count(hits[k]) > 0);
        assert(hits.to_multiset().count(hits[k]) > 0);
        lemma_concat_contains(first, rest, hits[k]);
        lemma_hits_exactly(v, meta, prefix, name, names, names.len(), hits[k]);
    }
    assert(by_rank()(hits[i], hits[j]));
    assert(rank_le(hits[i], hits[j]));
    assert(answers(v, prefix, hits[i].name) == Some(hits[i].tier));
    assert(answers(v, prefix, hits[j].name) == Some(hits[j].tier));
}

proof fn lemma_ns_index(root: FormView, i: nat, k: int)
    requires
        i <= k < root.children.len(),
        root.children[k].kind == Kind::ListLit && starts_with_token(
            root.children[k],
            Kind::SymLit,
            "ns"@,
        ),
        forall|j: int|
            0 <= j < k ==> !((#[trigger] root.children[j]).kind == Kind::ListLit
                && starts_with_token(root.children[j], Kind::SymLit, "ns"@)),
    ensures
        ns_index(root, i) == Some(k as nat),
    decreases root.children.len() - i,
{
    if i < k {
        assert(!(root.children[i as int].kind == Kind::ListLit && starts_with_token(
            root.children[i as int],
            Kind::SymLit,
            "ns"@,
        )));
        lemma_ns_index(root, i + 1, k);
    }
}

proof fn lemma_require_index(ns: FormView, i: nat, k: int)
    requires
        i <= k < ns.children.len(),
        require_clause(ns.children[k]),
        forall|j: int| 0 <= j < k ==> !require_clause(#[trigger] ns.children[j]),
    ensures
        require_index(ns, i) == Some(k as nat),
    decreases ns.children.len() - i,
{
    if i < k {
        assert(!require_clause(ns.children[i as int]));
        lemma_require_index(ns, i + 1, k);
    }
}

proof fn lemma_no_require_index(ns: FormView, i: nat)
    requires
        forall|j: int| 0 <= j < ns.children.len() ==> !require_clause(#[trigger] ns.children[j]),
    ensures
        require_index(ns, i) is None,
    decreases ns.children.len() - i,
{
    if i < ns.children.len() {
        assert(!require_clause(ns.children[i as int]));
        lemma_no_require_index(ns, i + 1);
    }
}

proof fn lemma_first_spec(clause: FormView, i: nat, a: int)
    requires
        i <= a < clause.children.len(),
        clause.children[a].kind != Kind::KwdLit,
        forall|j: int| 0 <= j < a ==> (#[trigger] clause.children[j]).kind == Kind::KwdLit,
    ensures
        first_spec(clause, i) == Some(a as nat),
    decreases clause.children.len() - i,
{
    if i < a {
        assert(clause.children[i as int].kind == Kind::KwdLit);
        lemma_first_spec(clause, i + 1, a);
    }
}

proof fn lemma_last_spec(clause: FormView, n: nat, b: int)
    requires
        0 <= b < n <= clause.children.len(),
        clause.children[b].kind != Kind::KwdLit,
        forall|j: int|
            b < j < clause.children.len() ==> (#[trigger] clause.children[j]).kind == Kind::KwdLit,
    ensures
        last_spec(clause, n) == Some(b as nat),
    decreases n,
{
    if b < n - 1 {
        assert(clause.children[n - 1].kind == Kind::KwdLit);
        lemma_last_spec(clause, (n - 1) as nat, b);
    }
}

/// A require is added behind the last spec of the first `:require` clause of the `ns` form, on
/// a line of its own and under the first spec; nothing that stands there is replaced.
pub proof fn law_require_goes_behind_the_last_spec(
    source: Seq<char>,
    spec: Seq<char>,
    root: FormView,
    k: int,
    c: int,
    a: int,
    b: int,
)
    requires
        syntax_of(source) == Some(root),
        0 <= k < root.children.len(),
        root.children[k].kind == Kind::ListLit && starts_with_token(
            root.children[k],
            Kind::SymLit,
            "ns"@,
        ),
        forall|j: int|
            0 <= j < k ==> !((#[trigger] root.children[j]).kind == Kind::ListLit
                && starts_with_token(root.children[j], Kind::SymLit, "ns"@)),
        0 <= c < root.children[k].children.len(),
        require_clause(root.children[k].children[c]),
        forall|j: int| 0 <= j < c ==> !require_clause(#[trigger] root.children[k].children[j]),
        0 <= a < root.children[k].children[c].children.len(),
        root.children[k].children[c].children[a].kind != Kind::KwdLit,
        forall|j: int|
            0 <= j < a ==> (#[trigger] root.children[k].children[c].children[j]).kind
                == Kind::KwdLit,
        0 <= b < root.children[k].children[c].children.len(),
        root.children[k].children[c].children[b].kind != Kind::KwdLit,
        forall|j: int|
            b < j < root.children[k].children[c].children.len() ==> (
            #[trigger] root.children[k].children[c].children[j]).kind == Kind::KwdLit,
    ensures
        require_edit_of(source, spec) matches Some(edit) && {
            let clause = root.children[k].children[c];
            &&& edit.range.start == clause.children[b].range.end
            &&& edit.range.end == clause.children[b].range.end
            &&& edit.new_text == "\n"@ + blanks(clause.children[a].column as nat) + spec
        },
{
    let clause = root.children[k].children[c];
    lemma_ns_index(root, 0, k);
    lemma_require_index(root.children[k], 0, c);
    lemma_first_spec(clause, 0, a);
    lemma_last_spec(clause, clause.children.len(), b);
}

/// Where the `ns` form has no `:require` clause, one is added behind its last child, with the
/// spec in it; where the text has no `ns` form, there is no edit.
pub proof fn law_require_clause_is_made(source: Seq<char>, spec: Seq<char>, root: FormView, k: int)
    requires
        syntax_of(source) == Some(root),
    ensures
        0 <= k < root.children.len() && root.children[k].kind == Kind::ListLit && starts_with_token(
            root.children[k],
            Kind::SymLit,
            "ns"@,
        ) && (forall|j: int|
            0 <= j < k ==> !((#[trigger] root.children[j]).kind == Kind::ListLit
                && starts_with_token(root.children[j], Kind::SymLit, "ns"@))) && (forall|j: int|
            0 <= j < root.children[k].children.len() ==> !require_clause(
                #[trigger] root.children[k].children[j],
            )) ==> (require_edit_of(source, spec) matches Some(edit) && {
            &&& edit.range.start == root.children[k].children.last().range.end
            &&& edit.range.end == edit.range.start
            &&& edit.new_text == "\n  (:require "@ + spec + ")"@
        }),
        (forall|j: int|
            0 <= j < root.children.len() ==> !((#[trigger] root.children[j]).kind == Kind::ListLit
                && starts_with_token(root.children[j], Kind::SymLit, "ns"@))) ==> require_edit_of(
            source,
            spec,
        ) is None,
{
    if 0 <= k < root.children.len() && root.children[k].kind == Kind::ListLit && starts_with_token(
        root.children[k],
        Kind::SymLit,
        "ns"@,
    ) && (forall|j: int|
        0 <= j < k ==> !((#[trigger] root.children[j]).kind == Kind::ListLit && starts_with_token(
            root.children[j],
            Kind::SymLit,
            "ns"@,
        ))) && (forall|j: int|
        0 <= j < root.children[k].children.len() ==> !require_clause(
            #[trigger] root.children[k].children[j],
        )) {
        lemma_ns_index(root, 0, k);
        lemma_no_require_index(root.children[k], 0);
    }
    if forall|j: int|
        0 <= j < root.children.len() ==> !((#[trigger] root.children[j]).kind == Kind::ListLit
            && starts_with_token(root.children[j], Kind::SymLit, "ns"@)) {
        lemma_no_ns_index(root, 0);
    }
}

proof fn lemma_no_ns_index(root: FormView, i: nat)
    requires
        forall|j: int|
            0 <= j < root.children.len() ==> !((#[trigger] root.children[j]).kind == Kind::ListLit
                && starts_with_token(root.children[j], Kind::SymLit, "ns"@)),
    ensures
        ns_index(root, i) is None,
    decreases root.children.len() - i,
{
    if i < root.children.len() {
        assert(!(root.children[i as int].kind == Kind::ListLit && starts_with_token(
            root.children[i as int],
            Kind::SymLit,
            "ns"@,
        )));
        lemma_no_ns_index(root, i + 1);
    }
}

/// Whether an action adds the require of the candidate at `k` and is told to fix the findings.
pub open spec fn adds_require(
    source: Seq<char>,
    found: Seq<CandidateView>,
    fixed: Seq<DiagnosticView>,
    k: int,
    action: ActionView,
) -> bool {
    &&& 0 <= k < found.len()
    &&& ({
        let spec = match found[k].alias {
            Some(alias) => "["@ + found[k].namespace + " :as "@ + alias + "]"@,
            None => "["@ + found[k].namespace + "]"@,
        };
        &&& require_edit_of(source, spec) matches Some(edit) && action.edits == seq![edit]
        &&& action.title == "Add require `"@ + spec + "`"@
        &&& action.kind == QUICKFIX@
        &&& action.diagnostics == fixed
    })
}

proof fn lemma_require_actions(
    source: Seq<char>,
    found: Seq<CandidateView>,
    fixed: Seq<DiagnosticView>,
    n: nat,
    action: ActionView,
)
    requires
        n <= found.len(),
    ensures
        require_actions(source, found, fixed, n).contains(action) <==> exists|k: int|
            k < n && #[trigger] adds_require(source, found, fixed, k, action),
    decreases n,
{
    if n > 0 {
        let before = require_actions(source, found, fixed, (n - 1) as nat);
        let after = require_actions(source, found, fixed, n);
        lemma_require_actions(source, found, fixed, (n - 1) as nat, action);
        if after.len() > before.len() {
            lemma_push_contains(before, after.last(), action);
        }
        assert(adds_require(source, found, fixed, n - 1, action) <==> after.len() > before.len()
            && action == after.last());
        if exists|k: int| k < n && #[trigger] adds_require(source, found, fixed, k, action) {
            let k = choose|k: int|
                k < n && #[trigger] adds_require(source, found, fixed, k, action);
            if k < n - 1 {
                assert(before.contains(action));
            }
        }
    } else {
        assert(require_actions(source, found, fixed, n) =~= seq![]);
    }
}

/// The actions at a position: where quick fixes are asked for, one for each candidate for the
/// word there, which adds its require and fixes the findings of unresolved namespaces; where
/// it is asked for and there is something to clean, the one that cleans the namespace.
pub proof fn law_actions_fix_what_is_under_the_cursor(
    v: IndexView,
    store: StoreView,
    uri: Seq<char>,
    path: Seq<char>,
    pos: Position,
    only: Option<Vec<String>>,
    found: Seq<DiagnosticView>,
    names: Seq<Seq<char>>,
    word: Seq<char>,
    meta: NsMetaView,
    action: ActionView,
)
    requires
        store.docs.dom().contains(uri),
        store.word(uri, pos) == Some(word),
        analysis_of(store.docs[uri], path, no_config()) matches Some(a) && a.meta == meta,
    ensures
        actions_at(v, store, uri, path, pos, only, found, names).contains(action) <==> {
            ||| asks_for(only, QUICKFIX@) && exists|k: int| #[trigger]
                adds_require(
                    store.docs[uri],
                    candidates_for(v, meta, word, names),
                    unresolved(found, found.len()),
                    k,
                    action,
                )
            ||| asks_for(only, ORGANIZE_IMPORTS@) && clean_edits(store.docs[uri]).len() > 0
                && action == (ActionView {
                title: "Clean namespace"@,
                kind: ORGANIZE_IMPORTS@,
                diagnostics: seq![],
                edits: clean_edits(store.docs[uri]),
            })
        },
{
    let text = store.docs[uri];
    let cs = candidates_for(v, meta, word, names);
    let fixed = unresolved(found, found.len());
    lemma_require_actions(text, cs, fixed, cs.len(), action);
    let one = if asks_for(only, QUICKFIX@) {
        fixes_for(v, text, path, store.word(uri, pos), found, names)
    } else {
        seq![]
    };
    let two = if asks_for(only, ORGANIZE_IMPORTS@) {
        clean_action(text)
    } else {
        seq![]
    };
    lemma_concat_contains(one, two, action);
    let clean = ActionView {
        title: "Clean namespace"@,
        kind: ORGANIZE_IMPORTS@,
        diagnostics: seq![],
        edits: clean_edits(text),
    };
    if clean_edits(text).len() > 0 {
        assert(clean_action(text) == seq![clean]);
        assert(seq![clean].contains(action) <==> action == clean) by {
            assert(seq![clean][0] == clean);
        }
    }
    assert(clean_action(text).contains(action) <==> clean_edits(text).len() > 0 && action == clean);
}

/// The findings that a quick fix is told to fix are those of unresolved namespaces.
pub proof fn law_quick_fixes_are_for_unresolved_namespaces(
    found: Seq<DiagnosticView>,
    n: nat,
    d: DiagnosticView,
)
    requires
        n <= found.len(),
    ensures
        unresolved(found, n).contains(d) <==> d.code == Some("unresolved-namespace"@) && exists|i: int|
            0 <= i < n && #[trigger] found[i] == d,
    decreases n,
{
    if n > 0 {
        let before = unresolved(found, (n - 1) as nat);
        law_quick_fixes_are_for_unresolved_namespaces(found, (n - 1) as nat, d);
        lemma_push_contains(before, found[n - 1], d);
        if exists|i: int| 0 <= i < n - 1 && #[trigger] found[i] == d {
            let i = choose|i: int| 0 <= i < n - 1 && #[trigger] found[i] == d;
            assert(found[i] == d);
        }
        assert(found[n - 1] == found[n - 1]);
    } else {
        assert(unresolved(found, n) =~= seq![]);
    }
}

}
