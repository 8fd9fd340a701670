//! Reading an `ns` form: requires, aliases, referred names and imports.

use vstd::prelude::*;
use crate::collect::{contains_str, dict_get, dict_put, law_dict_get_after_put, push_str, strs};
use crate::index::extractor::{qualify, sym_name, sym_text};
use crate::index::model::{NsMeta, NsMetaView};
use crate::syntax::{lemma_children, Form, FormView, Kind};
use crate::text::{concat3, rsplit_once, split_last, str_eq};

verus! {

broadcast use lemma_children;

impl NsMetaView {
    /// With `ns` referred in full.
    pub open spec fn refer_all_of(self, ns: Seq<char>) -> NsMetaView {
        if self.refer_all.contains(ns) {
            self
        } else {
            NsMetaView { refer_all: self.refer_all.push(ns), ..self }
        }
    }

    /// With `ns` required.
    pub open spec fn require(self, ns: Seq<char>) -> NsMetaView {
        NsMetaView { requires: self.requires.push(ns), ..self }
    }
}

/// Records `ns` as referred in full. A reader conditional can name a namespace
/// in several branches; a repeat would offer its vars twice.
pub fn record_refer_all(meta: &mut NsMeta, ns: &str)
    ensures
        final(meta).deep_view() == old(meta).deep_view().refer_all_of(ns@),
{
    if !contains_str(&meta.refer_all, ns) {
        push_str(&mut meta.refer_all, ns.to_owned());
    }
}

// --- (:require …) -----------------------------------------------------------

/// Refers each symbol among the first `n` children of `names` from `ns`.
pub open spec fn refer_names(names: FormView, n: nat, ns: Seq<char>, meta: NsMetaView) -> NsMetaView
    decreases n,
{
    if n == 0 || n > names.children.len() {
        meta
    } else {
        let m = refer_names(names, (n - 1) as nat, ns, meta);
        let c = names.children[n - 1];
        if c.kind == Kind::SymLit {
            NsMetaView { refers: dict_put(m.refers, c.text, qualify(ns, c.text)), ..m }
        } else {
            m
        }
    }
}

/// What the options of a libspec from child `i` on add: `:as alias`,
/// `:refer [names]` and `:refer :all`.
pub open spec fn libspec_options(spec: FormView, i: nat, ns: Seq<char>, meta: NsMetaView) -> NsMetaView
    decreases spec.children.len() - i,
{
    if i >= spec.children.len() {
        meta
    } else {
        let item = spec.children[i as int];
        let has_next = i + 1 < spec.children.len();
        let next = spec.children[i as int + 1];
        if item.kind == Kind::KwdLit && item.text == ":as"@ && has_next && next.kind
            == Kind::SymLit {
            libspec_options(
                spec,
                i + 2,
                ns,
                NsMetaView { aliases: dict_put(meta.aliases, next.text, ns), ..meta },
            )
        } else if item.kind == Kind::KwdLit && item.text == ":refer"@ && has_next && next.kind
            == Kind::KwdLit && next.text == ":all"@ {
            libspec_options(spec, i + 2, ns, meta.refer_all_of(ns))
        } else if item.kind == Kind::KwdLit && item.text == ":refer"@ && has_next && next.kind
            == Kind::VecLit {
            libspec_options(spec, i + 2, ns, refer_names(next, next.children.len(), ns, meta))
        } else {
            libspec_options(spec, i + 1, ns, meta)
        }
    }
}

/// What a libspec vector (`[a.b :as x :refer [y]]`) adds.
pub open spec fn libspec(spec: FormView, meta: NsMetaView) -> NsMetaView {
    if spec.children.len() == 0 || spec.children[0].kind != Kind::SymLit {
        meta
    } else {
        let ns = sym_name(spec.children[0]);
        libspec_options(spec, 1, ns, meta.require(ns))
    }
}

fn parse_require_vector(spec: &Form, meta: &mut NsMeta)
    ensures
        final(meta).deep_view() == libspec(spec@, old(meta).deep_view()),
{
    if spec.children.len() == 0 || spec.children[0].kind != Kind::SymLit {
        return;
    }
    let ns = sym_text(&spec.children[0]);
    push_str(&mut meta.requires, ns.to_owned());
    let ghost all = libspec(spec@, old(meta).deep_view());
    let mut i: usize = 1;
    while i < spec.children.len()
        invariant
            1 <= i <= spec.children@.len(),
            libspec_options(spec@, i as nat, ns@, meta.deep_view()) == all,
        decreases spec.children@.len() - i,
    {
        let item = &spec.children[i];
        if item.kind == Kind::KwdLit && i + 1 < spec.children.len() {
            let next = &spec.children[i + 1];
            if str_eq(item.text.as_str(), ":as") && next.kind == Kind::SymLit {
                meta.aliases.insert(next.text.clone(), ns.to_owned());
                i += 2;
                continue;
            }
            if str_eq(item.text.as_str(), ":refer") && next.kind == Kind::KwdLit && str_eq(
                next.text.as_str(),
                ":all",
            ) {
                record_refer_all(meta, ns);
                i += 2;
                continue;
            }
            if str_eq(item.text.as_str(), ":refer") && next.kind == Kind::VecLit {
                let ghost before = meta.deep_view();
                let mut k: usize = 0;
                while k < next.children.len()
                    invariant
                        k <= next.children@.len(),
                        meta.deep_view() == refer_names(next@, k as nat, ns@, before),
                    decreases next.children@.len() - k,
                {
                    let c = &next.children[k];
                    if c.kind == Kind::SymLit {
                        meta.refers.insert(c.text.clone(), concat3(ns, "/", c.text.as_str()));
                    }
                    k += 1;
                }
                i += 2;
                continue;
            }
        }
        i += 1;
    }
}

/// What a `:require` spec adds: a libspec vector, a vector of them, a bare
/// namespace, or each branch of a reader conditional. A prefix list
/// (`(clojure set)`) adds nothing.
pub open spec fn require_spec(spec: FormView, meta: NsMetaView) -> NsMetaView
    decreases spec, spec.children.len() + 1,
{
    if spec.kind == Kind::VecLit {
        if spec.children.len() == 0 {
            meta
        } else if spec.children[0].kind == Kind::SymLit {
            libspec(spec, meta)
        } else if spec.children[0].kind == Kind::VecLit {
            require_children(spec, spec.children.len(), meta)
        } else {
            meta
        }
    } else if spec.kind == Kind::SymLit {
        meta.require(sym_name(spec))
    } else if spec.kind == Kind::ReadCondLit || spec.kind == Kind::SplicingReadCondLit {
        require_children(spec, spec.children.len(), meta)
    } else {
        meta
    }
}

/// What the specs among the first `n` children add. The keywords of a reader
/// conditional name platforms and are skipped.
pub open spec fn require_children(spec: FormView, n: nat, meta: NsMetaView) -> NsMetaView
    decreases spec, n,
{
    if n == 0 || n > spec.children.len() {
        meta
    } else {
        let m = require_children(spec, (n - 1) as nat, meta);
        let c = spec.children[n - 1];
        if spec.kind != Kind::VecLit && c.kind == Kind::KwdLit {
            m
        } else {
            require_spec(c, m)
        }
    }
}

fn process_require_spec(spec: &Form, meta: &mut NsMeta)
    ensures
        final(meta).deep_view() == require_spec(spec@, old(meta).deep_view()),
    decreases spec@,
{
    let ghost before = meta.deep_view();
    if spec.kind == Kind::SymLit {
        push_str(&mut meta.requires, sym_text(spec).to_owned());
        return;
    }
    if spec.kind == Kind::VecLit {
        if spec.children.len() == 0 {
            return;
        }
        if spec.children[0].kind == Kind::SymLit {
            parse_require_vector(spec, meta);
            return;
        }
        if spec.children[0].kind != Kind::VecLit {
            return;
        }
    } else if spec.kind != Kind::ReadCondLit && spec.kind != Kind::SplicingReadCondLit {
        return;
    }
    let mut i: usize = 0;
    while i < spec.children.len()
        invariant
            i <= spec.children@.len(),
            meta.deep_view() == require_children(spec@, i as nat, before),
        decreases spec.children@.len() - i,
    {
        if spec.kind == Kind::VecLit || spec.children[i].kind != Kind::KwdLit {
            assert(decreases_to!(spec@ => spec@.children[i as int]));
            process_require_spec(&spec.children[i], meta);
        }
        i += 1;
    }
}

// --- (:use …) ---------------------------------------------------------------

/// The namespaces that a `:use` spec names, in the shapes that
/// [`require_spec`] takes. `:only` does not narrow it.
pub open spec fn use_names(spec: FormView) -> Seq<Seq<char>>
    decreases spec, spec.children.len() + 1,
{
    if spec.kind == Kind::SymLit {
        seq![sym_name(spec)]
    } else if spec.kind == Kind::VecLit {
        if spec.children.len() == 0 {
            Seq::empty()
        } else if spec.children[0].kind == Kind::SymLit {
            seq![sym_name(spec.children[0])]
        } else if spec.children[0].kind == Kind::VecLit {
            use_names_in_children(spec, spec.children.len())
        } else {
            Seq::empty()
        }
    } else if spec.kind == Kind::ReadCondLit || spec.kind == Kind::SplicingReadCondLit {
        use_names_in_children(spec, spec.children.len())
    } else {
        Seq::empty()
    }
}

/// The namespaces that the specs among the first `n` children name.
pub open spec fn use_names_in_children(spec: FormView, n: nat) -> Seq<Seq<char>>
    decreases spec, n,
{
    if n == 0 || n > spec.children.len() {
        Seq::empty()
    } else {
        let before = use_names_in_children(spec, (n - 1) as nat);
        let c = spec.children[n - 1];
        if spec.kind != Kind::VecLit && c.kind == Kind::KwdLit {
            before
        } else {
            before + use_names(c)
        }
    }
}

fn collect_use_namespaces(spec: &Form, out: &mut Vec<String>)
    ensures
        strs(final(out)@) == strs(old(out)@) + use_names(spec@),
    decreases spec@,
{
    let ghost before = strs(out@);
    if spec.kind == Kind::SymLit {
        push_str(out, sym_text(spec).to_owned());
        assert(strs(out@) =~= before + use_names(spec@));
        return;
    }
    if spec.kind == Kind::VecLit {
        if spec.children.len() == 0 {
            assert(before =~= before + use_names(spec@));
            return;
        }
        if spec.children[0].kind == Kind::SymLit {
            push_str(out, sym_text(&spec.children[0]).to_owned());
            assert(strs(out@) =~= before + use_names(spec@));
            return;
        }
        if spec.children[0].kind != Kind::VecLit {
            assert(before =~= before + use_names(spec@));
            return;
        }
    } else if spec.kind != Kind::ReadCondLit && spec.kind != Kind::SplicingReadCondLit {
        assert(before =~= before + use_names(spec@));
        return;
    }
    let mut i: usize = 0;
    assert(before =~= before + use_names_in_children(spec@, 0));
    while i < spec.children.len()
        invariant
            i <= spec.children@.len(),
            strs(out@) == before + use_names_in_children(spec@, i as nat),
        decreases spec.children@.len() - i,
    {
        if spec.kind == Kind::VecLit || spec.children[i].kind != Kind::KwdLit {
            assert(decreases_to!(spec@ => spec@.children[i as int]));
            collect_use_namespaces(&spec.children[i], out);
            assert(strs(out@) =~= before + use_names_in_children(spec@, (i + 1) as nat));
        }
        i += 1;
    }
}

/// With the first `n` of `names` referred in full.
pub open spec fn refer_all_each(names: Seq<Seq<char>>, n: nat, meta: NsMetaView) -> NsMetaView
    decreases n,
{
    if n == 0 || n > names.len() {
        meta
    } else {
        refer_all_each(names, (n - 1) as nat, meta).refer_all_of(names[n - 1])
    }
}

/// What a `:use` spec adds: it is a require and a refer of everything.
pub open spec fn use_spec(spec: FormView, meta: NsMetaView) -> NsMetaView {
    let names = use_names(spec);
    refer_all_each(names, names.len(), require_spec(spec, meta))
}

fn process_use_spec(spec: &Form, meta: &mut NsMeta)
    ensures
        final(meta).deep_view() == use_spec(spec@, old(meta).deep_view()),
{
    process_require_spec(spec, meta);
    let ghost required = meta.deep_view();
    let mut used: Vec<String> = Vec::new();
    collect_use_namespaces(spec, &mut used);
    assert(strs(used@) =~= use_names(spec@));
    let mut i: usize = 0;
    while i < used.len()
        invariant
            i <= used@.len(),
            strs(used@) == use_names(spec@),
            meta.deep_view() == refer_all_each(use_names(spec@), i as nat, required),
        decreases used@.len() - i,
    {
        assert(strs(used@)[i as int] == used@[i as int]@);
        record_refer_all(meta, used[i].as_str());
        i += 1;
    }
}

// --- (:import …) ------------------------------------------------------------

/// Imports each class among the children of `spec` from 1 up to `n`, from `package`.
pub open spec fn import_classes(
    spec: FormView,
    n: nat,
    package: Seq<char>,
    meta: NsMetaView,
) -> NsMetaView
    decreases n,
{
    if n <= 1 || n > spec.children.len() {
        meta
    } else {
        let m = import_classes(spec, (n - 1) as nat, package, meta);
        let c = spec.children[n - 1];
        if c.kind == Kind::SymLit {
            let simple = sym_name(c);
            NsMetaView { imports: dict_put(m.imports, simple, package + "."@ + simple), ..m }
        } else {
            m
        }
    }
}

/// What an `:import` spec adds: the classes of a package (`[java.util Date]`,
/// `(java.util Date)`), or one fully qualified class (`java.io.File`).
pub open spec fn import_spec(spec: FormView, meta: NsMetaView) -> NsMetaView {
    if spec.kind == Kind::VecLit || spec.kind == Kind::ListLit {
        if spec.children.len() == 0 || spec.children[0].kind != Kind::SymLit {
            meta
        } else {
            import_classes(spec, spec.children.len(), sym_name(spec.children[0]), meta)
        }
    } else if spec.kind == Kind::SymLit {
        match split_last(sym_name(spec), '.') {
            Some((_, simple)) => NsMetaView {
                imports: dict_put(meta.imports, simple, sym_name(spec)),
                ..meta
            },
            None => meta,
        }
    } else {
        meta
    }
}

fn process_import_spec(spec: &Form, meta: &mut NsMeta)
    ensures
        final(meta).deep_view() == import_spec(spec@, old(meta).deep_view()),
{
    let ghost before = meta.deep_view();
    if spec.kind == Kind::VecLit || spec.kind == Kind::ListLit {
        if spec.children.len() == 0 || spec.children[0].kind != Kind::SymLit {
            return;
        }
        let package = sym_text(&spec.children[0]);
        let mut i: usize = 1;
        while i < spec.children.len()
            invariant
                1 <= i <= spec.children@.len(),
                meta.deep_view() == import_classes(spec@, i as nat, package@, before),
            decreases spec.children@.len() - i,
        {
            let c = &spec.children[i];
            if c.kind == Kind::SymLit {
                let simple = sym_text(c);
                meta.imports.insert(simple.to_owned(), concat3(package, ".", simple));
            }
            i += 1;
        }
    } else if spec.kind == Kind::SymLit {
        if let Some((_, simple)) = rsplit_once(sym_text(spec), '.') {
            meta.imports.insert(simple, sym_text(spec).to_owned());
        }
    }
}

// --- (ns …) -----------------------------------------------------------------

/// What the specs of a clause from child 1 up to `n` add, `clause` being the
/// keyword that the clause starts with.
pub open spec fn clause_specs(list: FormView, n: nat, clause: Seq<char>, meta: NsMetaView) -> NsMetaView
    decreases n,
{
    if n <= 1 || n > list.children.len() {
        meta
    } else {
        let m = clause_specs(list, (n - 1) as nat, clause, meta);
        let c = list.children[n - 1];
        if clause == ":require"@ {
            require_spec(c, m)
        } else if clause == ":import"@ {
            import_spec(c, m)
        } else if clause == ":use"@ {
            use_spec(c, m)
        } else {
            m
        }
    }
}

/// What a clause of an `ns` form adds.
pub open spec fn ns_clause(list: FormView, meta: NsMetaView) -> NsMetaView {
    if list.kind != Kind::ListLit || list.children.len() == 0 || list.children[0].kind
        != Kind::KwdLit {
        meta
    } else {
        clause_specs(list, list.children.len(), list.children[0].text, meta)
    }
}

/// What the clauses of an `ns` form from child 2 up to `n` add.
pub open spec fn ns_clauses(form: FormView, n: nat, meta: NsMetaView) -> NsMetaView
    decreases n,
{
    if n <= 2 || n > form.children.len() {
        meta
    } else {
        ns_clause(form.children[n - 1], ns_clauses(form, (n - 1) as nat, meta))
    }
}

/// What an `ns` form says.
pub open spec fn ns_form(form: FormView, meta: NsMetaView) -> NsMetaView {
    if form.children.len() < 2 {
        meta
    } else {
        let named = if form.children[1].kind == Kind::SymLit {
            NsMetaView { name: sym_name(form.children[1]), ..meta }
        } else {
            meta
        };
        ns_clauses(form, form.children.len(), named)
    }
}

/// Reads one clause of an `ns` form.
fn extract_clause(list: &Form, meta: &mut NsMeta)
    ensures
        final(meta).deep_view() == ns_clause(list@, old(meta).deep_view()),
{
    if list.kind != Kind::ListLit || list.children.len() == 0 || list.children[0].kind
        != Kind::KwdLit {
        return;
    }
    let clause = list.children[0].text.as_str();
    let ghost before = meta.deep_view();
    let mut i: usize = 1;
    while i < list.children.len()
        invariant
            1 <= i <= list.children@.len(),
            clause@ == list@.children[0].text,
            meta.deep_view() == clause_specs(list@, i as nat, clause@, before),
        decreases list.children@.len() - i,
    {
        let c = &list.children[i];
        if str_eq(clause, ":require") {
            process_require_spec(c, meta);
        } else if str_eq(clause, ":import") {
            process_import_spec(c, meta);
        } else if str_eq(clause, ":use") {
            process_use_spec(c, meta);
        }
        i += 1;
    }
}

/// Reads an `ns` form into `meta`.
pub fn extract_ns(form: &Form, meta: &mut NsMeta)
    ensures
        final(meta).deep_view() == ns_form(form@, old(meta).deep_view()),
{
    if form.children.len() < 2 {
        return;
    }
    if form.children[1].kind == Kind::SymLit {
        meta.name = sym_text(&form.children[1]).to_owned();
    }
    let ghost named = meta.deep_view();
    let mut i: usize = 2;
    while i < form.children.len()
        invariant
            2 <= i <= form.children@.len(),
            meta.deep_view() == ns_clauses(form@, i as nat, named),
        decreases form.children@.len() - i,
    {
        extract_clause(&form.children[i], meta);
        i += 1;
    }
}

/// Whether the spec says `:as` with that alias at `j`.
pub open spec fn says_alias(spec: FormView, j: int, alias: Seq<char>) -> bool {
    &&& 0 <= j && j + 1 < spec.children.len()
    &&& spec.children[j].kind == Kind::KwdLit && spec.children[j].text == ":as"@
    &&& spec.children[j + 1].kind == Kind::SymLit && spec.children[j + 1].text == alias
}

/// Whether the spec says `:refer` at `j` with that name at `k` of the vector behind it.
pub open spec fn says_refer(spec: FormView, j: int, k: int, name: Seq<char>) -> bool {
    &&& 0 <= j && j + 1 < spec.children.len()
    &&& spec.children[j].kind == Kind::KwdLit && spec.children[j].text == ":refer"@
    &&& spec.children[j + 1].kind == Kind::VecLit
    &&& 0 <= k < spec.children[j + 1].children.len()
    &&& spec.children[j + 1].children[k].kind == Kind::SymLit
    &&& spec.children[j + 1].children[k].text == name
}

/// Whether the spec says `:refer :all` at `j`.
pub open spec fn says_refer_all(spec: FormView, j: int) -> bool {
    &&& 0 <= j && j + 1 < spec.children.len()
    &&& spec.children[j].kind == Kind::KwdLit && spec.children[j].text == ":refer"@
    &&& spec.children[j + 1].kind == Kind::KwdLit && spec.children[j + 1].text == ":all"@
}

proof fn lemma_option_names()
    ensures
        ":as"@ != ":refer"@,
        ":as"@ != ":all"@,
        ":refer"@ != ":all"@,
{
    reveal_strlit(":as");
    reveal_strlit(":refer");
    reveal_strlit(":all");
    assert(":as"@.len() == 3 && ":refer"@.len() == 6 && ":all"@.len() == 4);
}

proof fn lemma_refer_names(names: FormView, n: nat, ns: Seq<char>, meta: NsMetaView, name: Seq<char>)
    requires
        n <= names.children.len(),
    ensures
        ({
            let m = refer_names(names, n, ns, meta);
            &&& m == (NsMetaView { refers: m.refers, ..meta })
            &&& (exists|k: int|
                0 <= k < n && (#[trigger] names.children[k]).kind == Kind::SymLit
                    && names.children[k].text == name) ==> dict_get(m.refers, name) == Some(
                qualify(ns, name),
            )
            &&& !(exists|k: int|
                0 <= k < n && (#[trigger] names.children[k]).kind == Kind::SymLit
                    && names.children[k].text == name) ==> dict_get(m.refers, name) == dict_get(
                meta.refers,
                name,
            )
        }),
    decreases n,
{
    if n > 0 {
        lemma_refer_names(names, (n - 1) as nat, ns, meta, name);
        let m = refer_names(names, (n - 1) as nat, ns, meta);
        let c = names.children[n - 1];
        law_dict_get_after_put(m.refers, c.text, qualify(ns, c.text), name);
    }
}

proof fn lemma_libspec_options(
    spec: FormView,
    i: nat,
    ns: Seq<char>,
    meta: NsMetaView,
    name: Seq<char>,
)
    ensures
        ({
            let m = libspec_options(spec, i, ns, meta);
            &&& m == (NsMetaView {
                aliases: m.aliases,
                refers: m.refers,
                refer_all: m.refer_all,
                ..meta
            })
            &&& (exists|j: int| i <= j && #[trigger] says_alias(spec, j, name)) ==> dict_get(
                m.aliases,
                name,
            ) == Some(ns)
            &&& !(exists|j: int| i <= j && #[trigger] says_alias(spec, j, name)) ==> dict_get(
                m.aliases,
                name,
            ) == dict_get(meta.aliases, name)
            &&& (exists|j: int, k: int| i <= j && #[trigger] says_refer(spec, j, k, name))
                ==> dict_get(m.refers, name) == Some(qualify(ns, name))
            &&& !(exists|j: int, k: int| i <= j && #[trigger] says_refer(spec, j, k, name))
                ==> dict_get(m.refers, name) == dict_get(meta.refers, name)
            &&& m.refer_all.contains(name) <==> meta.refer_all.contains(name) || (name == ns
                && exists|j: int| i <= j && #[trigger] says_refer_all(spec, j))
        }),
    decreases spec.children.len() - i,
{
    lemma_option_names();
    if i < spec.children.len() {
        let at = i as int;
        let item = spec.children[at];
        let next = spec.children[at + 1];
        let has_next = i + 1 < spec.children.len();
        let m = libspec_options(spec, i, ns, meta);
        if item.kind == Kind::KwdLit && item.text == ":as"@ && has_next && next.kind
            == Kind::SymLit {
            let with = NsMetaView { aliases: dict_put(meta.aliases, next.text, ns), ..meta };
            lemma_libspec_options(spec, i + 2, ns, with, name);
            law_dict_get_after_put(meta.aliases, next.text, ns, name);
            assert(says_alias(spec, at, name) <==> next.text == name);
            lemma_skip_two(spec, i, name);
        } else if item.kind == Kind::KwdLit && item.text == ":refer"@ && has_next && next.kind
            == Kind::KwdLit && next.text == ":all"@ {
            lemma_libspec_options(spec, i + 2, ns, meta.refer_all_of(ns), name);
            crate::sort::lemma_push_contains(meta.refer_all, ns, name);
            assert(says_refer_all(spec, at));
            lemma_skip_two(spec, i, name);
        } else if item.kind == Kind::KwdLit && item.text == ":refer"@ && has_next && next.kind
            == Kind::VecLit {
            let len = next.children.len();
            lemma_libspec_options(spec, i + 2, ns, refer_names(next, len, ns, meta), name);
            lemma_refer_names(next, len, ns, meta, name);
            lemma_skip_two(spec, i, name);
            if exists|k: int|
                0 <= k < len && (#[trigger] next.children[k]).kind == Kind::SymLit
                    && next.children[k].text == name {
                let k = choose|k: int|
                    0 <= k < len && (#[trigger] next.children[k]).kind == Kind::SymLit
                        && next.children[k].text == name;
                assert(says_refer(spec, at, k, name));
            }
            if exists|k: int| #[trigger] says_refer(spec, at, k, name) {
                let k = choose|k: int| #[trigger] says_refer(spec, at, k, name);
                assert(next.children[k].kind == Kind::SymLit);
            }
        } else {
            lemma_libspec_options(spec, i + 1, ns, meta, name);
            assert(!says_alias(spec, at, name));
            assert(!says_refer_all(spec, at));
            assert forall|j: int| i <= j && #[trigger] says_alias(spec, j, name) implies i + 1
                <= j by {}
            assert forall|j: int, k: int|
                i <= j && #[trigger] says_refer(spec, j, k, name) implies i + 1 <= j by {}
            assert forall|j: int| i <= j && #[trigger] says_refer_all(spec, j) implies i + 1
                <= j by {}
        }
    }
}

/// Where an option takes the form behind it, that form is no option of its own.
proof fn lemma_skip_two(spec: FormView, i: nat, name: Seq<char>)
    requires
        i + 1 < spec.children.len(),
        spec.children[i as int + 1].kind == Kind::KwdLit ==> spec.children[i as int + 1].text
            == ":all"@,
    ensures
        forall|j: int|
            i <= j && #[trigger] says_alias(spec, j, name) ==> j == i || i + 2 <= j,
        forall|j: int, k: int|
            i <= j && #[trigger] says_refer(spec, j, k, name) ==> j == i || i + 2 <= j,
        forall|j: int| i <= j && #[trigger] says_refer_all(spec, j) ==> j == i || i + 2 <= j,
{
    lemma_option_names();
}

/// A spec requires its namespace. `:as` makes the alias behind it stand for that namespace,
/// `:refer` makes each name of the vector behind it stand for the name in that namespace, and
/// `:refer :all` refers to all of it; every other alias and name stands for what it stood for.
pub proof fn law_spec_is_read(spec: FormView, meta: NsMetaView, name: Seq<char>)
    requires
        spec.kind == Kind::VecLit,
        spec.children.len() > 0,
        spec.children[0].kind == Kind::SymLit,
    ensures
        ({
            let ns = sym_name(spec.children[0]);
            let m = require_spec(spec, meta);
            &&& m.name == meta.name
            &&& m.imports == meta.imports
            &&& m.requires == meta.requires.push(ns)
            &&& (exists|j: int| 1 <= j && #[trigger] says_alias(spec, j, name)) ==> dict_get(
                m.aliases,
                name,
            ) == Some(ns)
            &&& !(exists|j: int| 1 <= j && #[trigger] says_alias(spec, j, name)) ==> dict_get(
                m.aliases,
                name,
            ) == dict_get(meta.aliases, name)
            &&& (exists|j: int, k: int| 1 <= j && #[trigger] says_refer(spec, j, k, name))
                ==> dict_get(m.refers, name) == Some(ns + "/"@ + name)
            &&& !(exists|j: int, k: int| 1 <= j && #[trigger] says_refer(spec, j, k, name))
                ==> dict_get(m.refers, name) == dict_get(meta.refers, name)
            &&& m.refer_all.contains(name) <==> meta.refer_all.contains(name) || (name == ns
                && exists|j: int| 1 <= j && #[trigger] says_refer_all(spec, j))
        }),
{
    let ns = sym_name(spec.children[0]);
    lemma_libspec_options(spec, 1, ns, meta.require(ns), name);
}

/// Whether the form that the path leads to is a spec of its own: a bare namespace, or a vector that
/// starts with one. The path goes through vectors of vectors, and through the branches of reader
/// conditionals but not their platform keywords.
pub open spec fn spec_stands(f: FormView, path: Seq<int>, spec: FormView) -> bool
    decreases path.len(),
{
    if path.len() == 0 {
        f == spec && (f.kind == Kind::SymLit || (f.kind == Kind::VecLit && f.children.len() > 0
            && f.children[0].kind == Kind::SymLit))
    } else {
        &&& 0 <= path[0] < f.children.len()
        &&& {
            ||| f.kind == Kind::VecLit && f.children[0].kind == Kind::VecLit
            ||| (f.kind == Kind::ReadCondLit || f.kind == Kind::SplicingReadCondLit)
                && f.children[path[0]].kind != Kind::KwdLit
        }
        &&& spec_stands(f.children[path[0]], path.drop_first(), spec)
    }
}

/// The namespace that a spec requires.
pub open spec fn spec_ns(spec: FormView) -> Seq<char> {
    if spec.kind == Kind::SymLit {
        sym_name(spec)
    } else {
        sym_name(spec.children[0])
    }
}

/// Whether the spec, if it is a vector, gives the alias.
pub open spec fn gives_alias(spec: FormView, alias: Seq<char>) -> bool {
    spec.kind == Kind::VecLit && exists|j: int| 1 <= j && #[trigger] says_alias(spec, j, alias)
}

/// Whether the spec, if it is a vector, refers to the name.
pub open spec fn gives_refer(spec: FormView, name: Seq<char>) -> bool {
    spec.kind == Kind::VecLit && exists|j: int, k: int|
        1 <= j && #[trigger] says_refer(spec, j, k, name)
}

/// Whether what a form adds is what the specs in it say.
spec fn reads_all(f: FormView, before: NsMetaView, m: NsMetaView, name: Seq<char>) -> bool {
    &&& m.requires.contains(name) <==> before.requires.contains(name) || exists|
        path: Seq<int>,
        spec: FormView,
    | #[trigger] spec_stands(f, path, spec) && spec_ns(spec) == name
    &&& dict_get(m.aliases, name) is Some <==> dict_get(before.aliases, name) is Some || exists|
        path: Seq<int>,
        spec: FormView,
    | #[trigger] spec_stands(f, path, spec) && gives_alias(spec, name)
    &&& dict_get(m.aliases, name) matches Some(ns) ==> dict_get(before.aliases, name) == Some(ns)
        || exists|path: Seq<int>, spec: FormView| #[trigger]
        spec_stands(f, path, spec) && gives_alias(spec, name) && spec_ns(spec) == ns
    &&& dict_get(m.refers, name) is Some <==> dict_get(before.refers, name) is Some || exists|
        path: Seq<int>,
        spec: FormView,
    | #[trigger] spec_stands(f, path, spec) && gives_refer(spec, name)
    &&& dict_get(m.refers, name) matches Some(fqn) ==> dict_get(before.refers, name) == Some(fqn)
        || exists|path: Seq<int>, spec: FormView| #[trigger]
        spec_stands(f, path, spec) && gives_refer(spec, name) && spec_ns(spec) + "/"@ + name == fqn
}

/// Whether what the first `n` forms in a form add is what the specs in them say.
spec fn reads_first(f: FormView, n: int, before: NsMetaView, m: NsMetaView, name: Seq<char>) -> bool {
    &&& m.requires.contains(name) <==> before.requires.contains(name) || exists|
        path: Seq<int>,
        spec: FormView,
    | path.len() > 0 && path[0] < n && #[trigger] spec_stands(f, path, spec) && spec_ns(spec) == name
    &&& dict_get(m.aliases, name) is Some <==> dict_get(before.aliases, name) is Some || exists|
        path: Seq<int>,
        spec: FormView,
    | path.len() > 0 && path[0] < n && #[trigger] spec_stands(f, path, spec) && gives_alias(
        spec,
        name,
    )
    &&& dict_get(m.aliases, name) matches Some(ns) ==> dict_get(before.aliases, name) == Some(ns)
        || exists|path: Seq<int>, spec: FormView|
        path.len() > 0 && path[0] < n && #[trigger] spec_stands(f, path, spec) && gives_alias(
            spec,
            name,
        ) && spec_ns(spec) == ns
    &&& dict_get(m.refers, name) is Some <==> dict_get(before.refers, name) is Some || exists|
        path: Seq<int>,
        spec: FormView,
    | path.len() > 0 && path[0] < n && #[trigger] spec_stands(f, path, spec) && gives_refer(
        spec,
        name,
    )
    &&& dict_get(m.refers, name) matches Some(fqn) ==> dict_get(before.refers, name) == Some(fqn)
        || exists|path: Seq<int>, spec: FormView|
        path.len() > 0 && path[0] < n && #[trigger] spec_stands(f, path, spec) && gives_refer(
            spec,
            name,
        ) && spec_ns(spec) + "/"@ + name == fqn
}

proof fn lemma_spec_alone(f: FormView, spec: FormView)
    requires
        f.kind == Kind::SymLit || (f.kind == Kind::VecLit && f.children.len() > 0
            && f.children[0].kind == Kind::SymLit),
    ensures
        forall|path: Seq<int>, s: FormView| #[trigger] spec_stands(f, path, s) <==> path.len() == 0
            && s == f,
{
}

proof fn lemma_require_spec_reads(f: FormView, meta: NsMetaView, name: Seq<char>)
    ensures
        reads_all(f, meta, require_spec(f, meta), name),
    decreases f, f.children.len() + 1,
{
    let m = require_spec(f, meta);
    let none: Seq<int> = Seq::empty();
    if f.kind == Kind::SymLit {
        crate::sort::lemma_push_contains(meta.requires, sym_name(f), name);
        lemma_spec_alone(f, f);
        assert(spec_stands(f, none, f));
    } else if f.kind == Kind::VecLit && f.children.len() > 0 && f.children[0].kind
        == Kind::SymLit {
        law_spec_is_read(f, meta, name);
        crate::sort::lemma_push_contains(meta.requires, sym_name(f.children[0]), name);
        lemma_spec_alone(f, f);
        assert(spec_stands(f, none, f));
        assert(m.requires.contains(name) <==> meta.requires.contains(name) || spec_ns(f) == name);
    } else if (f.kind == Kind::VecLit && f.children.len() > 0 && f.children[0].kind
        == Kind::VecLit) || f.kind == Kind::ReadCondLit || f.kind == Kind::SplicingReadCondLit {
        let len = f.children.len();
        lemma_require_children_reads(f, len, meta, name);
        assert forall|path: Seq<int>, spec: FormView| #[trigger]
            spec_stands(f, path, spec) implies path.len() > 0 && path[0] < len by {}
    } else {
        assert forall|path: Seq<int>, spec: FormView| !(#[trigger] spec_stands(f, path, spec)) by {}
    }
}

proof fn lemma_require_children_reads(f: FormView, n: nat, meta: NsMetaView, name: Seq<char>)
    requires
        n <= f.children.len(),
        (f.kind == Kind::VecLit && f.children.len() > 0 && f.children[0].kind == Kind::VecLit)
            || f.kind == Kind::ReadCondLit || f.kind == Kind::SplicingReadCondLit,
    ensures
        reads_first(f, n as int, meta, require_children(f, n, meta), name),
    decreases f, n,
{
    if n > 0 {
        let before = require_children(f, (n - 1) as nat, meta);
        let m = require_children(f, n, meta);
        let c = f.children[n - 1];
        lemma_require_children_reads(f, (n - 1) as nat, meta, name);
        if f.kind != Kind::VecLit && c.kind == Kind::KwdLit {
            assert forall|path: Seq<int>, spec: FormView|
                path.len() > 0 && path[0] < n && #[trigger] spec_stands(f, path, spec) implies path[0]
                < n - 1 by {}
        } else {
            lemma_require_spec_reads(c, before, name);
            assert forall|path: Seq<int>, spec: FormView| #[trigger]
                spec_stands(c, path, spec) implies spec_stands(f, seq![n - 1] + path, spec) by {
                assert((seq![n - 1] + path).drop_first() =~= path);
            }
            assert forall|path: Seq<int>, spec: FormView|
                path.len() > 0 && path[0] < n && #[trigger] spec_stands(f, path, spec) implies path[0]
                < n - 1 || spec_stands(c, path.drop_first(), spec) by {}
        }
    }
}

/// A required form is read through and through: every spec in it, inside vectors of specs and the
/// branches of reader conditionals, requires its namespace and gives its aliases and referred names,
/// which stand for that namespace; and nothing else does.
pub proof fn law_every_spec_is_read(f: FormView, meta: NsMetaView, name: Seq<char>)
    ensures
        ({
            let m = require_spec(f, meta);
            &&& m.requires.contains(name) <==> meta.requires.contains(name) || exists|
                path: Seq<int>,
                spec: FormView,
            | #[trigger] spec_stands(f, path, spec) && spec_ns(spec) == name
            &&& dict_get(m.aliases, name) is Some <==> dict_get(meta.aliases, name) is Some
                || exists|path: Seq<int>, spec: FormView| #[trigger]
                spec_stands(f, path, spec) && gives_alias(spec, name)
            &&& dict_get(m.aliases, name) matches Some(ns) ==> dict_get(meta.aliases, name) == Some(
                ns,
            ) || exists|path: Seq<int>, spec: FormView| #[trigger]
                spec_stands(f, path, spec) && gives_alias(spec, name) && spec_ns(spec) == ns
            &&& dict_get(m.refers, name) is Some <==> dict_get(meta.refers, name) is Some
                || exists|path: Seq<int>, spec: FormView| #[trigger]
                spec_stands(f, path, spec) && gives_refer(spec, name)
            &&& dict_get(m.refers, name) matches Some(fqn) ==> dict_get(meta.refers, name) == Some(
                fqn,
            ) || exists|path: Seq<int>, spec: FormView| #[trigger]
                spec_stands(f, path, spec) && gives_refer(spec, name) && spec_ns(spec) + "/"@ + name
                    == fqn
        }),
{
    lemma_require_spec_reads(f, meta, name);
}

/// Whether the import names the class at `k` behind its package.
pub open spec fn names_class(spec: FormView, k: int, simple: Seq<char>) -> bool {
    1 <= k < spec.children.len() && spec.children[k].kind == Kind::SymLit && sym_name(
        spec.children[k],
    ) == simple
}

proof fn lemma_import_classes(
    spec: FormView,
    n: nat,
    package: Seq<char>,
    meta: NsMetaView,
    simple: Seq<char>,
)
    requires
        n <= spec.children.len(),
    ensures
        ({
            let m = import_classes(spec, n, package, meta);
            &&& m == (NsMetaView { imports: m.imports, ..meta })
            &&& (exists|k: int| k < n && #[trigger] names_class(spec, k, simple)) ==> dict_get(
                m.imports,
                simple,
            ) == Some(package + "."@ + simple)
            &&& !(exists|k: int| k < n && #[trigger] names_class(spec, k, simple)) ==> dict_get(
                m.imports,
                simple,
            ) == dict_get(meta.imports, simple)
        }),
    decreases n,
{
    if n > 1 {
        lemma_import_classes(spec, (n - 1) as nat, package, meta, simple);
        let m = import_classes(spec, (n - 1) as nat, package, meta);
        let c = spec.children[n - 1];
        law_dict_get_after_put(m.imports, sym_name(c), package + "."@ + sym_name(c), simple);
        assert(names_class(spec, n - 1, simple) <==> c.kind == Kind::SymLit && sym_name(c)
            == simple);
    }
}

/// An import of a package with classes makes each of them stand for the class in the package; an
/// import of one class by its full name makes what follows the last dot stand for it.
pub proof fn law_imports_name_classes(spec: FormView, meta: NsMetaView, simple: Seq<char>)
    ensures
        (spec.kind == Kind::VecLit || spec.kind == Kind::ListLit) && spec.children.len() > 0
            && spec.children[0].kind == Kind::SymLit ==> {
            &&& (exists|k: int| #[trigger] names_class(spec, k, simple)) ==> dict_get(
                import_spec(spec, meta).imports,
                simple,
            ) == Some(sym_name(spec.children[0]) + "."@ + simple)
            &&& !(exists|k: int| #[trigger] names_class(spec, k, simple)) ==> dict_get(
                import_spec(spec, meta).imports,
                simple,
            ) == dict_get(meta.imports, simple)
        },
        spec.kind == Kind::SymLit ==> (split_last(sym_name(spec), '.') matches Some((_, s)) ==> s
            == simple ==> dict_get(import_spec(spec, meta).imports, simple) == Some(sym_name(spec))),
        import_spec(spec, meta).aliases == meta.aliases,
        import_spec(spec, meta).refers == meta.refers,
        import_spec(spec, meta).requires == meta.requires,
{
    if (spec.kind == Kind::VecLit || spec.kind == Kind::ListLit) && spec.children.len() > 0
        && spec.children[0].kind == Kind::SymLit {
        let len = spec.children.len();
        lemma_import_classes(spec, len, sym_name(spec.children[0]), meta, simple);
        if exists|k: int| #[trigger] names_class(spec, k, simple) {
            let k = choose|k: int| #[trigger] names_class(spec, k, simple);
            assert(k < len);
        }
    } else if spec.kind == Kind::SymLit {
        if let Some((_, s)) = split_last(sym_name(spec), '.') {
            law_dict_get_after_put(meta.imports, s, sym_name(spec), simple);
        }
    }
}

/// Whether a spec stands in a `:require` clause of the `ns` form: in the form at `k` of the clause at
/// `c`.
pub open spec fn required_in(form: FormView, c: int, k: int, path: Seq<int>, spec: FormView) -> bool {
    &&& 2 <= c < form.children.len()
    &&& form.children[c].kind == Kind::ListLit
    &&& 1 <= k < form.children[c].children.len()
    &&& form.children[c].children[0].kind == Kind::KwdLit
    &&& form.children[c].children[0].text == ":require"@
    &&& spec_stands(form.children[c].children[k], path, spec)
}

proof fn lemma_require_spec_keeps(f: FormView, meta: NsMetaView, name: Seq<char>)
    ensures
        dict_get(meta.aliases, name) is Some ==> dict_get(require_spec(f, meta).aliases, name) is Some,
        dict_get(meta.refers, name) is Some ==> dict_get(require_spec(f, meta).refers, name) is Some,
        meta.requires.contains(name) ==> require_spec(f, meta).requires.contains(name),
{
    lemma_require_spec_reads(f, meta, name);
}

proof fn lemma_refer_all_each(names: Seq<Seq<char>>, n: nat, meta: NsMetaView)
    ensures
        refer_all_each(names, n, meta) == (NsMetaView {
            refer_all: refer_all_each(names, n, meta).refer_all,
            ..meta
        }),
    decreases n,
{
    if n > 0 && n <= names.len() {
        lemma_refer_all_each(names, (n - 1) as nat, meta);
    }
}

proof fn lemma_clause_keeps(
    list: FormView,
    n: nat,
    clause: Seq<char>,
    meta: NsMetaView,
    name: Seq<char>,
)
    ensures
        dict_get(meta.aliases, name) is Some ==> dict_get(
            clause_specs(list, n, clause, meta).aliases,
            name,
        ) is Some,
        dict_get(meta.refers, name) is Some ==> dict_get(
            clause_specs(list, n, clause, meta).refers,
            name,
        ) is Some,
        meta.requires.contains(name) ==> clause_specs(list, n, clause, meta).requires.contains(name),
    decreases n,
{
    if n > 1 && n <= list.children.len() {
        lemma_clause_keeps(list, (n - 1) as nat, clause, meta, name);
        let m = clause_specs(list, (n - 1) as nat, clause, meta);
        let c = list.children[n - 1];
        lemma_require_spec_keeps(c, m, name);
        law_imports_name_classes(c, m, name);
        lemma_refer_all_each(use_names(c), use_names(c).len(), require_spec(c, m));
    }
}

proof fn lemma_clause_gives(
    list: FormView,
    n: nat,
    meta: NsMetaView,
    k: int,
    path: Seq<int>,
    spec: FormView,
    name: Seq<char>,
)
    requires
        1 <= k < n <= list.children.len(),
        spec_stands(list.children[k], path, spec),
    ensures
        spec_ns(spec) == name ==> clause_specs(list, n, ":require"@, meta).requires.contains(name),
        gives_alias(spec, name) ==> dict_get(
            clause_specs(list, n, ":require"@, meta).aliases,
            name,
        ) is Some,
        gives_refer(spec, name) ==> dict_get(
            clause_specs(list, n, ":require"@, meta).refers,
            name,
        ) is Some,
    decreases n,
{
    let m = clause_specs(list, (n - 1) as nat, ":require"@, meta);
    lemma_require_spec_reads(list.children[n - 1], m, name);
    if k < n - 1 {
        lemma_clause_gives(list, (n - 1) as nat, meta, k, path, spec, name);
    }
}

proof fn lemma_clauses_keep(form: FormView, n: nat, meta: NsMetaView, name: Seq<char>)
    ensures
        dict_get(meta.aliases, name) is Some ==> dict_get(ns_clauses(form, n, meta).aliases, name)
            is Some,
        dict_get(meta.refers, name) is Some ==> dict_get(ns_clauses(form, n, meta).refers, name)
            is Some,
        meta.requires.contains(name) ==> ns_clauses(form, n, meta).requires.contains(name),
    decreases n,
{
    if n > 2 && n <= form.children.len() {
        lemma_clauses_keep(form, (n - 1) as nat, meta, name);
        let list = form.children[n - 1];
        let m = ns_clauses(form, (n - 1) as nat, meta);
        lemma_clause_keeps(list, list.children.len(), list.children[0].text, m, name);
    }
}

proof fn lemma_clauses_give(
    form: FormView,
    n: nat,
    meta: NsMetaView,
    c: int,
    k: int,
    path: Seq<int>,
    spec: FormView,
    name: Seq<char>,
)
    requires
        c < n <= form.children.len(),
        required_in(form, c, k, path, spec),
    ensures
        spec_ns(spec) == name ==> ns_clauses(form, n, meta).requires.contains(name),
        gives_alias(spec, name) ==> dict_get(ns_clauses(form, n, meta).aliases, name) is Some,
        gives_refer(spec, name) ==> dict_get(ns_clauses(form, n, meta).refers, name) is Some,
    decreases n,
{
    let list = form.children[n - 1];
    let m = ns_clauses(form, (n - 1) as nat, meta);
    if c < n - 1 {
        lemma_clauses_give(form, (n - 1) as nat, meta, c, k, path, spec, name);
        lemma_clause_keeps(list, list.children.len(), list.children[0].text, m, name);
    } else {
        lemma_clause_gives(list, list.children.len(), m, k, path, spec, name);
    }
}

/// Every spec of every `:require` clause of an `ns` form counts, wherever it stands: its
/// namespace is required, its alias stands for a namespace and its referred names for names. The
/// namespace is named by the symbol behind `ns`.
pub proof fn law_every_require_clause_is_read(
    form: FormView,
    meta: NsMetaView,
    c: int,
    k: int,
    path: Seq<int>,
    spec: FormView,
    name: Seq<char>,
)
    requires
        required_in(form, c, k, path, spec),
    ensures
        spec_ns(spec) == name ==> ns_form(form, meta).requires.contains(name),
        gives_alias(spec, name) ==> dict_get(ns_form(form, meta).aliases, name) is Some,
        gives_refer(spec, name) ==> dict_get(ns_form(form, meta).refers, name) is Some,
{
    let named = if form.children[1].kind == Kind::SymLit {
        NsMetaView { name: sym_name(form.children[1]), ..meta }
    } else {
        meta
    };
    lemma_clauses_give(form, form.children.len(), named, c, k, path, spec, name);
}

}
