//! Reading definitions off top-level forms.

use vstd::prelude::*;
use crate::collect::{dict_get, push_item, push_str, strs, Dict};
use crate::index::extractor::{
    in_ns, keyword_fqn, keyword_name, name_in_ns, qualify, sym_name, sym_name_range, sym_range,
    sym_text,
};
use crate::index::model::{
    def_symbol_kind, macro_fqn_kind, DefKind, ExtractConfig, ExtractConfigView, NsMeta, NsMetaView,
    SourceView, Symbol, SymbolSource, SymbolView,
};
use crate::index::namespaces::{extract_ns, ns_form};
use crate::syntax::{lemma_children, Form, FormView, Kind};
use crate::text::{chars_of, concat3, rsplit_once, split_last, str_eq, string_of};

verus! {

broadcast use lemma_children;

/// The multimethod whose methods define component keywords. The other lifecycle
/// methods dispatch on the same keywords but only use them.
pub const INTEGRANT_INIT_KEY: &'static str = "integrant.core/init-key";

// --- which forms define -----------------------------------------------------

/// The name that the head of a list stands for: through an alias, as a referred
/// name, else in the file's own namespace.
pub open spec fn head_fqn(head: FormView, meta: NsMetaView) -> Option<Seq<char>> {
    let name = sym_name(head);
    if name.len() == 0 {
        None
    } else if head.namespace is Some {
        Some(qualify(meta.alias_target(head.namespace->0.text), name))
    } else if dict_get(meta.refers, name) is Some {
        dict_get(meta.refers, name)
    } else if meta.name.len() == 0 {
        None
    } else {
        Some(qualify(meta.name, name))
    }
}

/// The name that the head of a list stands for.
pub fn resolve_head_fqn(head: &Form, meta: &NsMeta) -> (r: Option<String>)
    ensures
        r.deep_view() == head_fqn(head@, meta.deep_view()),
{
    let name = sym_text(head);
    if name.is_empty() {
        return None;
    }
    if let Some(p) = &head.namespace {
        return Some(concat3(meta.resolve_alias(p.text.as_str()), "/", name));
    }
    if let Some(fqn) = meta.refers.get(name) {
        return Some(fqn.clone());
    }
    if meta.name.as_str().is_empty() {
        None
    } else {
        Some(concat3(meta.name.as_str(), "/", name))
    }
}

/// The kind of definition that the macro `fqn` makes: as configured, else as
/// well known.
pub open spec fn macro_kind(fqn: Seq<char>, lint_as: Seq<(Seq<char>, DefKind)>) -> Option<DefKind> {
    match dict_get(lint_as, fqn) {
        Some(k) => Some(k),
        None => macro_fqn_kind(fqn),
    }
}

fn kind_of_macro(fqn: &str, lint_as: &Dict<DefKind>) -> (r: Option<DefKind>)
    ensures
        r == macro_kind(fqn@, lint_as.deep_view()),
{
    match lint_as.get(fqn) {
        Some(k) => Some(*k),
        None => DefKind::from_macro_fqn(fqn),
    }
}

/// The first namespace from `i` on among those referred in full that makes
/// `name` a defining macro.
pub open spec fn referred_macro(
    refer_all: Seq<Seq<char>>,
    i: nat,
    name: Seq<char>,
    lint_as: Seq<(Seq<char>, DefKind)>,
) -> Option<(Seq<char>, DefKind)>
    decreases refer_all.len() - i,
{
    if i >= refer_all.len() {
        None
    } else {
        let fqn = qualify(refer_all[i as int], name);
        match macro_kind(fqn, lint_as) {
            Some(k) => Some((fqn, k)),
            None => referred_macro(refer_all, i + 1, name, lint_as),
        }
    }
}

/// The definition that a macro call makes, with the name of the macro: the head
/// by itself, else, where it is bare and not referred, through each namespace
/// referred in full.
pub open spec fn macro_definition(
    head: FormView,
    meta: NsMetaView,
    lint_as: Seq<(Seq<char>, DefKind)>,
) -> Option<(Seq<char>, DefKind)> {
    let own = match head_fqn(head, meta) {
        Some(fqn) => match macro_kind(fqn, lint_as) {
            Some(k) => Some((fqn, k)),
            None => None,
        },
        None => None,
    };
    if own is Some {
        own
    } else if sym_name(head).len() > 0 && head.namespace is None && dict_get(
        meta.refers,
        sym_name(head),
    ) is None {
        referred_macro(meta.refer_all, 0, sym_name(head), lint_as)
    } else {
        None
    }
}

/// The definition that a macro call makes, with the name of the macro.
pub fn macro_def_kind(head: &Form, meta: &NsMeta, lint_as: &Dict<DefKind>) -> (r: Option<
    (String, DefKind),
>)
    ensures
        r.deep_view() == macro_definition(head@, meta.deep_view(), lint_as.deep_view()),
{
    if let Some(fqn) = resolve_head_fqn(head, meta) {
        if let Some(k) = kind_of_macro(fqn.as_str(), lint_as) {
            return Some((fqn, k));
        }
    }
    let name = sym_text(head);
    if name.is_empty() || head.namespace.is_some() || meta.refers.contains_key(name) {
        return None;
    }
    let mut i: usize = 0;
    while i < meta.refer_all.len()
        invariant
            i <= meta.refer_all@.len(),
            macro_definition(head@, meta.deep_view(), lint_as.deep_view()) == referred_macro(
                strs(meta.refer_all@),
                i as nat,
                name@,
                lint_as.deep_view(),
            ),
        decreases meta.refer_all@.len() - i,
    {
        let fqn = concat3(meta.refer_all[i].as_str(), "/", name);
        if let Some(k) = kind_of_macro(fqn.as_str(), lint_as) {
            return Some((fqn, k));
        }
        i += 1;
    }
    None
}

// --- what a definition says -------------------------------------------------

/// A string literal without its quotes.
pub open spec fn unquoted(s: Seq<char>) -> Seq<char> {
    if s.len() >= 2 && s[0] == '"' && s.last() == '"' {
        s.subrange(1, s.len() - 1)
    } else {
        s
    }
}

/// A string literal without its quotes.
pub fn strip_string_quotes(s: &str) -> (r: String)
    ensures
        r@ == unquoted(s@),
{
    let cs = chars_of(s);
    let n: usize = cs.len();
    if n >= 2 && cs[0] == '"' && cs[n - 1] == '"' {
        string_of(&cs, 1, n - 1)
    } else {
        s.to_owned()
    }
}

/// The first vector among the children from `i` on.
pub open spec fn first_vector(f: FormView, i: nat) -> Option<Seq<char>>
    decreases f.children.len() - i,
{
    if i >= f.children.len() {
        None
    } else if f.children[i as int].kind == Kind::VecLit {
        Some(f.children[i as int].text)
    } else {
        first_vector(f, i + 1)
    }
}

fn find_vector(f: &Form) -> (r: Option<&str>)
    ensures
        match r {
            Some(t) => first_vector(f@, 0) == Some(t@),
            None => first_vector(f@, 0) is None,
        },
{
    let mut i: usize = 0;
    while i < f.children.len()
        invariant
            i <= f.children@.len(),
            first_vector(f@, 0) == first_vector(f@, i as nat),
        decreases f.children@.len() - i,
    {
        if f.children[i].kind == Kind::VecLit {
            return Some(f.children[i].text.as_str());
        }
        i += 1;
    }
    None
}

/// The parameter vectors among the children of a definition from `i` on: the
/// first vector that stands by itself, unless one was `found` already, and the
/// first vector of each list.
pub open spec fn def_params(f: FormView, i: nat, found: bool) -> Seq<Seq<char>>
    decreases f.children.len() - i,
{
    if i >= f.children.len() {
        Seq::empty()
    } else {
        let c = f.children[i as int];
        if c.kind == Kind::VecLit && !found {
            seq![c.text] + def_params(f, i + 1, true)
        } else if c.kind == Kind::ListLit {
            match first_vector(c, 0) {
                Some(t) => seq![t] + def_params(f, i + 1, found),
                None => def_params(f, i + 1, found),
            }
        } else {
            def_params(f, i + 1, found)
        }
    }
}

fn collect_params(f: &Form, start: usize) -> (r: Vec<String>)
    ensures
        strs(r@) == def_params(f@, start as nat, false),
{
    let mut out: Vec<String> = Vec::new();
    let mut found = false;
    let mut i: usize = start;
    let ghost all = def_params(f@, start as nat, false);
    assert(strs(out@) + all =~= all);
    while i < f.children.len()
        invariant
            strs(out@) + def_params(f@, i as nat, found) == all,
        decreases f.children@.len() - i,
    {
        let c = &f.children[i];
        let ghost before = strs(out@);
        let ghost rest = def_params(f@, i as nat, found);
        if c.kind == Kind::VecLit && !found {
            push_str(&mut out, c.text.clone());
            found = true;
            assert(strs(out@) + def_params(f@, (i + 1) as nat, true) =~= before + rest);
        } else if c.kind == Kind::ListLit {
            if let Some(t) = find_vector(c) {
                push_str(&mut out, t.to_owned());
                assert(strs(out@) + def_params(f@, (i + 1) as nat, found) =~= before + rest);
            }
        }
        i += 1;
    }
    assert(strs(out@) =~= strs(out@) + def_params(f@, i as nat, found));
    out
}

/// Whether the map literal `m` gives `:private` the value `true`.
pub open spec fn map_says_private(m: FormView) -> bool {
    exists|p: int|
        0 <= p && 2 * p + 1 < m.children.len() && (#[trigger] m.children[2 * p]).text
            == ":private"@ && m.children[2 * p + 1].text == "true"@
}

/// Whether `v`, the value of some metadata, marks a name private.
pub open spec fn value_says_private(v: FormView) -> bool {
    (v.kind == Kind::KwdLit && v.text == ":private"@) || (v.kind == Kind::MapLit
        && map_says_private(v))
}

/// Whether `c` is metadata that marks a name private.
pub open spec fn meta_says_private(c: FormView) -> bool {
    (c.kind == Kind::MetaLit || c.kind == Kind::OldMetaLit) && exists|j: int|
        0 <= j < c.children.len() && value_says_private(#[trigger] c.children[j])
}

/// Whether a defined name carries metadata that marks it private
/// (`^:private x`, `^{:private true} x`).
pub open spec fn marked_private(name: FormView) -> bool {
    exists|i: int| 0 <= i < name.children.len() && meta_says_private(#[trigger] name.children[i])
}

fn map_is_private(m: &Form) -> (r: bool)
    ensures
        r == map_says_private(m@),
{
    let mut p: usize = 0;
    let n: usize = m.children.len();
    while p < n / 2
        invariant
            n == m.children@.len(),
            p <= n / 2,
            forall|q: int|
                0 <= q < p ==> !((#[trigger] m@.children[2 * q]).text == ":private"@
                    && m@.children[2 * q + 1].text == "true"@),
        decreases n / 2 - p,
    {
        if str_eq(m.children[2 * p].text.as_str(), ":private") && str_eq(
            m.children[2 * p + 1].text.as_str(),
            "true",
        ) {
            assert(m@.children[2 * (p as int)].text == ":private"@);
            return true;
        }
        p += 1;
    }
    false
}

fn meta_is_private(c: &Form) -> (r: bool)
    ensures
        r == meta_says_private(c@),
{
    if c.kind != Kind::MetaLit && c.kind != Kind::OldMetaLit {
        return false;
    }
    let mut j: usize = 0;
    while j < c.children.len()
        invariant
            j <= c.children@.len(),
            c.kind == Kind::MetaLit || c.kind == Kind::OldMetaLit,
            forall|q: int| 0 <= q < j ==> !value_says_private(#[trigger] c@.children[q]),
        decreases c.children@.len() - j,
    {
        let v = &c.children[j];
        if (v.kind == Kind::KwdLit && str_eq(v.text.as_str(), ":private")) || (v.kind
            == Kind::MapLit && map_is_private(v)) {
            assert(value_says_private(c@.children[j as int]));
            return true;
        }
        j += 1;
    }
    false
}

fn has_private_mark(name: &Form) -> (r: bool)
    ensures
        r == marked_private(name@),
{
    let mut i: usize = 0;
    while i < name.children.len()
        invariant
            i <= name.children@.len(),
            forall|q: int| 0 <= q < i ==> !meta_says_private(#[trigger] name@.children[q]),
        decreases name.children@.len() - i,
    {
        if meta_is_private(&name.children[i]) {
            assert(meta_says_private(name@.children[i as int]));
            return true;
        }
        i += 1;
    }
    false
}

/// The last string literal among the first `n` children.
pub open spec fn last_string(f: FormView, n: nat) -> Option<Seq<char>>
    decreases n,
{
    if n == 0 || n > f.children.len() {
        None
    } else if f.children[n - 1].kind == Kind::StrLit {
        Some(unquoted(f.children[n - 1].text))
    } else {
        last_string(f, (n - 1) as nat)
    }
}

fn find_last_string(f: &Form) -> (r: Option<String>)
    ensures
        r.deep_view() == last_string(f@, f@.children.len()),
{
    let mut n: usize = f.children.len();
    while n > 0
        invariant
            n <= f.children@.len(),
            last_string(f@, f@.children.len()) == last_string(f@, n as nat),
        decreases n,
    {
        if f.children[n - 1].kind == Kind::StrLit {
            return Some(strip_string_quotes(f.children[n - 1].text.as_str()));
        }
        n -= 1;
    }
    None
}

/// Every vector among the first `n` children.
pub open spec fn all_vectors(f: FormView, n: nat) -> Seq<Seq<char>>
    decreases n,
{
    if n == 0 || n > f.children.len() {
        Seq::empty()
    } else {
        let before = all_vectors(f, (n - 1) as nat);
        if f.children[n - 1].kind == Kind::VecLit {
            before.push(f.children[n - 1].text)
        } else {
            before
        }
    }
}

fn collect_vectors(f: &Form) -> (r: Vec<String>)
    ensures
        strs(r@) == all_vectors(f@, f@.children.len()),
{
    let mut out: Vec<String> = Vec::new();
    assert(strs(out@) =~= all_vectors(f@, 0));
    let mut i: usize = 0;
    while i < f.children.len()
        invariant
            i <= f.children@.len(),
            strs(out@) == all_vectors(f@, i as nat),
        decreases f.children@.len() - i,
    {
        if f.children[i].kind == Kind::VecLit {
            push_str(&mut out, f.children[i].text.clone());
        }
        i += 1;
    }
    out
}

/// The methods that the children of a protocol from 2 up to `n` declare, each
/// `(name [params]+ docstring?)` as a function of the namespace.
pub open spec fn protocol_methods(
    form: FormView,
    n: nat,
    file: Seq<char>,
    ns: Seq<char>,
) -> Seq<SymbolView>
    decreases n,
{
    if n <= 2 || n > form.children.len() {
        Seq::empty()
    } else {
        let before = protocol_methods(form, (n - 1) as nat, file, ns);
        let sig = form.children[n - 1];
        if sig.kind == Kind::ListLit && sig.children.len() > 0 && sig.children[0].kind
            == Kind::SymLit {
            before.push(protocol_method(sig, file, ns))
        } else {
            before
        }
    }
}

/// The function that a method signature declares.
pub open spec fn protocol_method(sig: FormView, file: Seq<char>, ns: Seq<char>) -> SymbolView {
    let name = sym_name(sig.children[0]);
    SymbolView {
        name,
        fqn: in_ns(ns, name),
        ns,
        kind: DefKind::Defn,
        params: all_vectors(sig, sig.children.len()),
        doc: last_string(sig, sig.children.len()),
        file,
        source: SourceView::Project,
        range: sig.range,
        name_range: sym_range(sig.children[0]),
        private: false,
    }
}

fn extract_protocol_methods(form: &Form, file: &str, ns: &str, symbols: &mut Vec<Symbol>)
    ensures
        final(symbols).deep_view() == old(symbols).deep_view() + protocol_methods(
            form@,
            form@.children.len(),
            file@,
            ns@,
        ),
{
    let ghost before = symbols.deep_view();
    let mut i: usize = 2;
    assert(before =~= before + protocol_methods(form@, 2, file@, ns@));
    while i < form.children.len()
        invariant
            2 <= i,
            symbols.deep_view() == before + protocol_methods(form@, i as nat, file@, ns@),
            i <= form.children@.len() || i == 2,
        decreases form.children@.len() - i,
    {
        let sig = &form.children[i];
        if sig.kind == Kind::ListLit && sig.children.len() > 0 && sig.children[0].kind
            == Kind::SymLit {
            let name = sym_text(&sig.children[0]);
            let sym = Symbol {
                name: name.to_owned(),
                fqn: name_in_ns(ns, name),
                ns: ns.to_owned(),
                kind: DefKind::Defn,
                params: collect_vectors(sig),
                doc: find_last_string(sig),
                file: file.to_owned(),
                source: SymbolSource::Project,
                range: sig.range,
                name_range: sym_name_range(&sig.children[0]),
                private: false,
            };
            push_item(symbols, sym);
            assert(symbols.deep_view() =~= before + protocol_methods(
                form@,
                (i + 1) as nat,
                file@,
                ns@,
            ));
        }
        i += 1;
    }
    if form.children.len() < 2 {
        assert(before =~= before + protocol_methods(form@, form@.children.len(), file@, ns@));
    }
}

/// The symbol that a definition form defines; `form` has a name.
pub open spec fn defined_symbol(form: FormView, kind: DefKind, file: Seq<char>, ns: Seq<char>) -> SymbolView {
    let name = sym_name(form.children[1]);
    let has_doc = form.children.len() > 2 && form.children[2].kind == Kind::StrLit;
    SymbolView {
        name,
        fqn: in_ns(ns, name),
        ns,
        kind,
        params: def_params(
            form,
            if has_doc {
                3
            } else {
                2
            },
            false,
        ),
        doc: if has_doc {
            Some(unquoted(form.children[2].text))
        } else {
            None
        },
        file,
        source: SourceView::Project,
        range: form.range,
        name_range: sym_range(form.children[1]),
        private: kind == DefKind::DefnPrivate || marked_private(form.children[1]),
    }
}

/// What a definition form defines: its name, and the methods of a protocol.
pub open spec fn definitions(form: FormView, kind: DefKind, file: Seq<char>, ns: Seq<char>) -> Seq<
    SymbolView,
> {
    if form.children.len() < 2 || form.children[1].kind != Kind::SymLit {
        Seq::empty()
    } else {
        let own = seq![defined_symbol(form, kind, file, ns)];
        if kind == DefKind::Defprotocol {
            own + protocol_methods(form, form.children.len(), file, ns)
        } else {
            own
        }
    }
}

/// Reads a definition form.
pub fn extract_def(form: &Form, kind: DefKind, file: &str, ns: &str, symbols: &mut Vec<Symbol>)
    ensures
        final(symbols).deep_view() == old(symbols).deep_view() + definitions(
            form@,
            kind,
            file@,
            ns@,
        ),
{
    let ghost before = symbols.deep_view();
    if form.children.len() < 2 || form.children[1].kind != Kind::SymLit {
        assert(before =~= before + definitions(form@, kind, file@, ns@));
        return;
    }
    let name_node = &form.children[1];
    let name = sym_text(name_node);
    let mut rest: usize = 2;
    let mut doc: Option<String> = None;
    if form.children.len() > 2 && form.children[2].kind == Kind::StrLit {
        doc = Some(strip_string_quotes(form.children[2].text.as_str()));
        rest = 3;
    }
    let sym = Symbol {
        name: name.to_owned(),
        fqn: name_in_ns(ns, name),
        ns: ns.to_owned(),
        kind,
        params: collect_params(form, rest),
        doc,
        file: file.to_owned(),
        source: SymbolSource::Project,
        range: form.range,
        name_range: sym_name_range(name_node),
        private: kind == DefKind::DefnPrivate || has_private_mark(name_node),
    };
    assert(sym.deep_view() == defined_symbol(form@, kind, file@, ns@));
    push_item(symbols, sym);
    if kind == DefKind::Defprotocol {
        extract_protocol_methods(form, file, ns, symbols);
    }
    assert(symbols.deep_view() =~= before + definitions(form@, kind, file@, ns@));
}

// --- component keywords -----------------------------------------------------

/// The multimethod that a `defmethod` form extends: through an alias, or as a
/// referred name.
pub open spec fn multifn_fqn(form: FormView, meta: NsMetaView) -> Option<Seq<char>> {
    if form.children.len() < 2 || form.children[1].kind != Kind::SymLit {
        None
    } else {
        let head = form.children[1];
        match head.namespace {
            Some(p) => Some(qualify(meta.alias_target(p.text), sym_name(head))),
            None => dict_get(meta.refers, sym_name(head)),
        }
    }
}

/// The multimethod that a `defmethod` form extends.
pub fn defmethod_multifn_fqn(form: &Form, meta: &NsMeta) -> (r: Option<String>)
    ensures
        r.deep_view() == multifn_fqn(form@, meta.deep_view()),
{
    if form.children.len() < 2 || form.children[1].kind != Kind::SymLit {
        return None;
    }
    let head = &form.children[1];
    let name = sym_text(head);
    match &head.namespace {
        Some(p) => Some(concat3(meta.resolve_alias(p.text.as_str()), "/", name)),
        None => match meta.refers.get(name) {
            Some(fqn) => Some(fqn.clone()),
            None => None,
        },
    }
}

/// The component keyword that a `defmethod` form defines: the dispatch keyword
/// of a method of `integrant.core/init-key`.
pub open spec fn init_key_name(form: FormView, meta: NsMetaView) -> Option<Seq<char>> {
    if multifn_fqn(form, meta) == Some(INTEGRANT_INIT_KEY@) && form.children.len() > 2
        && form.children[2].kind == Kind::KwdLit {
        keyword_name(form.children[2], meta)
    } else {
        None
    }
}

/// The component keyword that a `defmethod` form defines.
pub fn init_key_fqn(form: &Form, meta: &NsMeta) -> (r: Option<String>)
    ensures
        r.deep_view() == init_key_name(form@, meta.deep_view()),
{
    match defmethod_multifn_fqn(form, meta) {
        Some(fqn) => {
            if str_eq(fqn.as_str(), INTEGRANT_INIT_KEY) && form.children.len() > 2
                && form.children[2].kind == Kind::KwdLit {
                keyword_fqn(&form.children[2], meta)
            } else {
                None
            }
        },
        None => None,
    }
}

/// The definition of the component keyword `fqn`, made by `form`.
pub open spec fn component_symbol(form: FormView, fqn: Seq<char>, file: Seq<char>) -> SymbolView {
    let bare = fqn.skip(1);
    SymbolView {
        name: match split_last(bare, '/') {
            Some((_, name)) => name,
            None => bare,
        },
        fqn,
        ns: match split_last(bare, '/') {
            Some((ns, _)) => ns,
            None => Seq::empty(),
        },
        kind: DefKind::IntegrantKey,
        params: Seq::empty(),
        doc: None,
        file,
        source: SourceView::Project,
        range: form.range,
        name_range: form.children[2].range,
        private: false,
    }
}

/// The component keywords that a form defines.
pub open spec fn component_definitions(form: FormView, meta: NsMetaView, file: Seq<char>) -> Seq<
    SymbolView,
> {
    match init_key_name(form, meta) {
        Some(fqn) => seq![component_symbol(form, fqn, file)],
        None => Seq::empty(),
    }
}

/// Reads the component keyword that a `defmethod` form defines.
pub fn extract_integrant_key(form: &Form, meta: &NsMeta, file: &str, symbols: &mut Vec<Symbol>)
    ensures
        final(symbols).deep_view() == old(symbols).deep_view() + component_definitions(
            form@,
            meta.deep_view(),
            file@,
        ),
{
    let ghost before = symbols.deep_view();
    let ghost m = meta.deep_view();
    match init_key_fqn(form, meta) {
        Some(fqn) => {
            let cs = chars_of(fqn.as_str());
            proof {
                assert(fqn@.len() >= 1) by {
                    reveal_strlit(":");
                    reveal_strlit("/");
                }
            }
            let n: usize = cs.len();
            let bare = string_of(&cs, 1, n);
            assert(bare@ =~= fqn@.skip(1));
            let (ns, name) = match rsplit_once(bare.as_str(), '/') {
                Some((ns, name)) => (ns, name),
                None => (String::new(), bare),
            };
            let params: Vec<String> = Vec::new();
            assert(strs(params@) =~= Seq::empty());
            let sym = Symbol {
                name,
                fqn,
                ns,
                kind: DefKind::IntegrantKey,
                params,
                doc: None,
                file: file.to_owned(),
                source: SymbolSource::Project,
                range: form.range,
                name_range: form.children[2].range,
                private: false,
            };
            assert(sym.deep_view() == component_symbol(form@, init_key_name(form@, m)->0, file@));
            push_item(symbols, sym);
        },
        None => {},
    }
    assert(symbols.deep_view() =~= before + component_definitions(form@, m, file@));
}

// --- top-level forms --------------------------------------------------------

/// What has been read of a file: its namespace, and the symbols it defines.
pub ghost struct Outline {
    pub meta: NsMetaView,
    pub symbols: Seq<SymbolView>,
}

/// The kind of definition that a list with the head `head` makes.
pub open spec fn list_kind(head: FormView, meta: NsMetaView, cfg: ExtractConfigView) -> Option<
    DefKind,
> {
    match def_symbol_kind(head.text) {
        Some(k) => Some(k),
        None => match macro_definition(head, meta, cfg.lint_as) {
            Some((_, k)) => Some(k),
            None => None,
        },
    }
}

/// What a top-level list adds: an `ns` form says what the namespace is, and a
/// definition, by a core form or by a defining macro, defines symbols.
pub open spec fn top_level_list(
    form: FormView,
    o: Outline,
    file: Seq<char>,
    cfg: ExtractConfigView,
) -> Outline {
    if form.children.len() == 0 || form.children[0].kind != Kind::SymLit {
        o
    } else if form.children[0].text == "ns"@ {
        Outline { meta: ns_form(form, o.meta), ..o }
    } else {
        match list_kind(form.children[0], o.meta, cfg) {
            Some(kind) => {
                let defs = definitions(form, kind, file, o.meta.name);
                let keys = if kind == DefKind::Defmethod {
                    component_definitions(form, o.meta, file)
                } else {
                    Seq::empty()
                };
                Outline { symbols: o.symbols + defs + keys, ..o }
            },
            None => o,
        }
    }
}

fn process_top_level_list(
    form: &Form,
    file: &str,
    meta: &mut NsMeta,
    symbols: &mut Vec<Symbol>,
    cfg: &ExtractConfig,
)
    ensures
        (Outline { meta: final(meta).deep_view(), symbols: final(symbols).deep_view() })
            == top_level_list(
            form@,
            Outline { meta: old(meta).deep_view(), symbols: old(symbols).deep_view() },
            file@,
            cfg.deep_view(),
        ),
{
    let ghost before = symbols.deep_view();
    if form.children.len() == 0 || form.children[0].kind != Kind::SymLit {
        return;
    }
    let head = &form.children[0];
    if str_eq(head.text.as_str(), "ns") {
        extract_ns(form, meta);
        return;
    }
    let kind = match DefKind::from_def_symbol(head.text.as_str()) {
        Some(k) => Some(k),
        None => match macro_def_kind(head, meta, &cfg.lint_as) {
            Some((_, k)) => Some(k),
            None => None,
        },
    };
    if let Some(kind) = kind {
        extract_def(form, kind, file, meta.name.as_str(), symbols);
        if kind == DefKind::Defmethod {
            extract_integrant_key(form, meta, file, symbols);
        } else {
            assert(symbols.deep_view() =~= symbols.deep_view() + Seq::empty());
        }
    }
}

/// What the branches of a top-level reader conditional add, up to branch `n`:
/// keywords and forms alternate, and each list is read.
pub open spec fn top_level_branches(
    cond: FormView,
    n: nat,
    o: Outline,
    file: Seq<char>,
    cfg: ExtractConfigView,
) -> Outline
    decreases n,
{
    if n == 0 || 2 * n > cond.children.len() {
        o
    } else {
        let before = top_level_branches(cond, (n - 1) as nat, o, file, cfg);
        let form = cond.children[2 * n - 1];
        if form.kind == Kind::ListLit {
            top_level_list(form, before, file, cfg)
        } else {
            before
        }
    }
}

fn process_reader_conditional(
    cond: &Form,
    file: &str,
    meta: &mut NsMeta,
    symbols: &mut Vec<Symbol>,
    cfg: &ExtractConfig,
)
    ensures
        (Outline { meta: final(meta).deep_view(), symbols: final(symbols).deep_view() })
            == top_level_branches(
            cond@,
            cond@.children.len() / 2,
            Outline { meta: old(meta).deep_view(), symbols: old(symbols).deep_view() },
            file@,
            cfg.deep_view(),
        ),
{
    let ghost o = Outline { meta: meta.deep_view(), symbols: symbols.deep_view() };
    let n: usize = cond.children.len();
    let branches: usize = n / 2;
    let mut b: usize = 0;
    while b < branches
        invariant
            b <= branches,
            n == cond.children@.len(),
            branches == n / 2,
            (Outline { meta: meta.deep_view(), symbols: symbols.deep_view() })
                == top_level_branches(cond@, b as nat, o, file@, cfg.deep_view()),
        decreases branches - b,
    {
        let form = &cond.children[2 * b + 1];
        if form.kind == Kind::ListLit {
            process_top_level_list(form, file, meta, symbols, cfg);
        }
        b += 1;
    }
}

/// What the first `n` top-level forms say.
pub open spec fn outline(
    root: FormView,
    n: nat,
    file: Seq<char>,
    cfg: ExtractConfigView,
) -> Outline
    decreases n,
{
    if n == 0 || n > root.children.len() {
        Outline { meta: NsMetaView::blank(file), symbols: Seq::empty() }
    } else {
        let before = outline(root, (n - 1) as nat, file, cfg);
        let form = root.children[n - 1];
        if form.kind == Kind::ListLit {
            top_level_list(form, before, file, cfg)
        } else if form.kind == Kind::ReadCondLit {
            top_level_branches(form, form.children.len() / 2, before, file, cfg)
        } else {
            before
        }
    }
}

/// What the file as a whole says.
pub open spec fn file_outline(root: FormView, file: Seq<char>, cfg: ExtractConfigView) -> Outline {
    outline(root, root.children.len(), file, cfg)
}

/// Reads the namespace and the definitions of a file.
pub fn extract_outline(root: &Form, file: &str, cfg: &ExtractConfig) -> (r: (NsMeta, Vec<Symbol>))
    ensures
        (Outline { meta: r.0.deep_view(), symbols: r.1.deep_view() }) == file_outline(
            root@,
            file@,
            cfg.deep_view(),
        ),
{
    let mut meta = NsMeta::empty(file);
    let mut symbols: Vec<Symbol> = Vec::new();
    assert(symbols.deep_view() =~= Seq::empty());
    let mut i: usize = 0;
    while i < root.children.len()
        invariant
            i <= root.children@.len(),
            (Outline { meta: meta.deep_view(), symbols: symbols.deep_view() }) == outline(
                root@,
                i as nat,
                file@,
                cfg.deep_view(),
            ),
        decreases root.children@.len() - i,
    {
        let form = &root.children[i];
        if form.kind == Kind::ListLit {
            process_top_level_list(form, file, &mut meta, &mut symbols, cfg);
        } else if form.kind == Kind::ReadCondLit {
            process_reader_conditional(form, file, &mut meta, &mut symbols, cfg);
        }
        i += 1;
    }
    (meta, symbols)
}

/// Whether the form at `j` is the first vector among those from `i` on.
pub open spec fn is_first_vector(f: FormView, i: int, j: int) -> bool {
    &&& i <= j < f.children.len()
    &&& f.children[j].kind == Kind::VecLit
    &&& forall|k: int| i <= k < j ==> (#[trigger] f.children[k]).kind != Kind::VecLit
}

proof fn lemma_first_vector(f: FormView, i: nat)
    ensures
        match first_vector(f, i) {
            Some(t) => exists|j: int| #[trigger]
                is_first_vector(f, i as int, j) && f.children[j].text == t,
            None => forall|k: int|
                i <= k < f.children.len() ==> (#[trigger] f.children[k]).kind != Kind::VecLit,
        },
    decreases f.children.len() - i,
{
    if i < f.children.len() {
        if f.children[i as int].kind == Kind::VecLit {
            assert(is_first_vector(f, i as int, i as int));
        } else {
            lemma_first_vector(f, i + 1);
            if first_vector(f, i + 1) is Some {
                let j = choose|j: int| #[trigger]
                    is_first_vector(f, i as int + 1, j) && f.children[j].text == first_vector(f, i + 1)->0;
                assert(is_first_vector(f, i as int, j));
            }
        }
    }
}

/// Whether the text is that of a parameter vector of the definition: its first vector, or the first
/// vector of one of its lists.
pub open spec fn is_params(f: FormView, i: int, found: bool, t: Seq<char>, j: int) -> bool {
    &&& i <= j < f.children.len()
    &&& {
        ||| !found && is_first_vector(f, i, j) && f.children[j].text == t
        ||| f.children[j].kind == Kind::ListLit && exists|k: int| #[trigger]
            is_first_vector(f.children[j], 0, k) && f.children[j].children[k].text == t
    }
}

proof fn lemma_list_params(c: FormView, t: Seq<char>)
    ensures
        first_vector(c, 0) == Some(t) <==> exists|k: int| #[trigger]
            is_first_vector(c, 0, k) && c.children[k].text == t,
{
    lemma_first_vector(c, 0);
    if exists|k: int| #[trigger] is_first_vector(c, 0, k) && c.children[k].text == t {
        let k = choose|k: int| #[trigger] is_first_vector(c, 0, k) && c.children[k].text == t;
        let u = first_vector(c, 0);
        if u is Some {
            let j = choose|j: int| #[trigger]
                is_first_vector(c, 0, j) && c.children[j].text == u->0;
            assert(j == k) by {
                if j < k {
                    assert(c.children[j].kind != Kind::VecLit);
                }
                if k < j {
                    assert(c.children[k].kind != Kind::VecLit);
                }
            }
        }
    }
}

/// The parameters of a definition are all its parameter vectors and no others.
pub proof fn law_every_arity_is_listed(f: FormView, i: nat, found: bool, t: Seq<char>)
    ensures
        def_params(f, i, found).contains(t) <==> exists|j: int| #[trigger]
            is_params(f, i as int, found, t, j),
    decreases f.children.len() - i,
{
    if i >= f.children.len() {
        assert(def_params(f, i, found) =~= Seq::empty());
    } else {
        let c = f.children[i as int];
        let at = i as int;
        lemma_list_params(c, t);
        if c.kind == Kind::VecLit && !found {
            law_every_arity_is_listed(f, i + 1, true, t);
            crate::handlers::references::lemma_concat_contains(
                seq![c.text],
                def_params(f, i + 1, true),
                t,
            );
            assert(seq![c.text][0] == c.text);
            assert(is_first_vector(f, at, at));
            if c.text == t {
                assert(is_params(f, at, found, t, at));
            }
            if exists|j: int| #[trigger] is_params(f, i as int + 1, true, t, j) {
                let j = choose|j: int| #[trigger] is_params(f, i as int + 1, true, t, j);
                assert(is_params(f, at, found, t, j));
            }
            if exists|j: int| #[trigger] is_params(f, at, found, t, j) {
                let j = choose|j: int| #[trigger] is_params(f, at, found, t, j);
                if j > at {
                    assert(f.children[at].kind == Kind::VecLit);
                    assert(is_params(f, i as int + 1, true, t, j));
                }
            }
        } else {
            let more = def_params(f, i + 1, found);
            law_every_arity_is_listed(f, i + 1, found, t);
            if c.kind == Kind::ListLit && first_vector(c, 0) is Some {
                crate::handlers::references::lemma_concat_contains(
                    seq![first_vector(c, 0)->0],
                    more,
                    t,
                );
                assert(seq![first_vector(c, 0)->0][0] == first_vector(c, 0)->0);
                if first_vector(c, 0) == Some(t) {
                    assert(is_params(f, at, found, t, at));
                }
            }
            if exists|j: int| #[trigger] is_params(f, i as int + 1, found, t, j) {
                let j = choose|j: int| #[trigger] is_params(f, i as int + 1, found, t, j);
                if !found && is_first_vector(f, i as int + 1, j) {
                    assert(is_first_vector(f, at, j));
                }
                assert(is_params(f, at, found, t, j));
            }
            if exists|j: int| #[trigger] is_params(f, at, found, t, j) {
                let j = choose|j: int| #[trigger] is_params(f, at, found, t, j);
                if j > at {
                    if !found && is_first_vector(f, at, j) {
                        assert(is_first_vector(f, i as int + 1, j));
                    }
                    assert(is_params(f, i as int + 1, found, t, j));
                }
            }
        }
    }
}

/// A form defines a name where its second form is a symbol: the name is that of the symbol, in the
/// file's namespace; a `defn-` and a name marked so are private, and a string right behind the name
/// is the documentation.
pub proof fn law_definition_is_that_of_its_name(
    form: FormView,
    kind: DefKind,
    file: Seq<char>,
    ns: Seq<char>,
)
    requires
        ns.len() > 0,
    ensures
        definitions(form, kind, file, ns).len() > 0 <==> form.children.len() >= 2
            && form.children[1].kind == Kind::SymLit,
        definitions(form, kind, file, ns).len() > 0 ==> ({
            let s = definitions(form, kind, file, ns)[0];
            &&& s.name == sym_name(form.children[1])
            &&& s.fqn == ns + "/"@ + s.name
            &&& s.ns == ns && s.file == file && s.kind == kind && s.source is Project
            &&& s.name_range == sym_range(form.children[1]) && s.range == form.range
            &&& kind == DefKind::DefnPrivate ==> s.private
            &&& form.children[1].children.len() == 0 && kind != DefKind::DefnPrivate ==> !s.private
            &&& s.doc is Some <==> form.children.len() > 2 && form.children[2].kind == Kind::StrLit
            &&& kind != DefKind::Defprotocol ==> definitions(form, kind, file, ns).len() == 1
        }),
{
}

/// Whether the form at `j` of a protocol is the signature of the method.
pub open spec fn is_method(
    form: FormView,
    j: int,
    file: Seq<char>,
    ns: Seq<char>,
    s: SymbolView,
) -> bool {
    &&& 2 <= j < form.children.len()
    &&& form.children[j].kind == Kind::ListLit
    &&& form.children[j].children.len() > 0
    &&& form.children[j].children[0].kind == Kind::SymLit
    &&& s == protocol_method(form.children[j], file, ns)
}

proof fn lemma_protocol_methods(
    form: FormView,
    n: nat,
    file: Seq<char>,
    ns: Seq<char>,
    s: SymbolView,
)
    requires
        n <= form.children.len(),
    ensures
        protocol_methods(form, n, file, ns).contains(s) <==> exists|j: int|
            j < n && #[trigger] is_method(form, j, file, ns, s),
    decreases n,
{
    if n <= 2 {
        assert(protocol_methods(form, n, file, ns) =~= Seq::empty());
    } else {
        let before = protocol_methods(form, (n - 1) as nat, file, ns);
        lemma_protocol_methods(form, (n - 1) as nat, file, ns, s);
        let sig = form.children[n - 1];
        crate::sort::lemma_push_contains(before, protocol_method(sig, file, ns), s);
        if exists|j: int| j < n && #[trigger] is_method(form, j, file, ns, s) {
            let j = choose|j: int| j < n && #[trigger] is_method(form, j, file, ns, s);
            if j < n - 1 {
                assert(before.contains(s));
            }
        }
        if protocol_methods(form, n, file, ns).contains(s) && !before.contains(s) {
            assert(is_method(form, n - 1, file, ns, s));
        }
    }
}

/// A protocol defines itself and every method that it has a signature for.
pub proof fn law_protocol_defines_its_methods(
    form: FormView,
    file: Seq<char>,
    ns: Seq<char>,
    s: SymbolView,
)
    requires
        form.children.len() >= 2,
        form.children[1].kind == Kind::SymLit,
        ns.len() > 0,
    ensures
        definitions(form, DefKind::Defprotocol, file, ns).contains(s) <==> {
            ||| s == defined_symbol(form, DefKind::Defprotocol, file, ns)
            ||| exists|j: int| #[trigger] is_method(form, j, file, ns, s)
        },
        forall|j: int| #[trigger]
            is_method(form, j, file, ns, s) ==> s.name == sym_name(form.children[j].children[0])
                && s.fqn == ns + "/"@ + s.name && s.name_range == sym_range(
                form.children[j].children[0],
            ) && !s.private,
{
    let own = seq![defined_symbol(form, DefKind::Defprotocol, file, ns)];
    assert(own[0] == defined_symbol(form, DefKind::Defprotocol, file, ns));
    let len = form.children.len();
    lemma_protocol_methods(form, len, file, ns, s);
    crate::handlers::references::lemma_concat_contains(
        own,
        protocol_methods(form, len, file, ns),
        s,
    );
    if exists|j: int| #[trigger] is_method(form, j, file, ns, s) {
        let j = choose|j: int| #[trigger] is_method(form, j, file, ns, s);
        assert(j < len);
    }
}

/// Whether a list at the top level defines the symbol, where the namespace is as `meta` says.
pub open spec fn list_defines(
    form: FormView,
    meta: NsMetaView,
    file: Seq<char>,
    cfg: ExtractConfigView,
    s: SymbolView,
) -> bool {
    &&& form.kind == Kind::ListLit
    &&& form.children.len() > 0
    &&& form.children[0].kind == Kind::SymLit
    &&& form.children[0].text != "ns"@
    &&& list_kind(form.children[0], meta, cfg) matches Some(kind) && {
        ||| definitions(form, kind, file, meta.name).contains(s)
        ||| kind == DefKind::Defmethod && component_definitions(form, meta, file).contains(s)
    }
}

proof fn lemma_top_level_list(
    form: FormView,
    o: Outline,
    file: Seq<char>,
    cfg: ExtractConfigView,
    s: SymbolView,
)
    requires
        form.kind == Kind::ListLit,
    ensures
        top_level_list(form, o, file, cfg).symbols.contains(s) <==> o.symbols.contains(s)
            || list_defines(form, o.meta, file, cfg, s),
{
    if form.children.len() > 0 && form.children[0].kind == Kind::SymLit && form.children[0].text
        != "ns"@ {
        if let Some(kind) = list_kind(form.children[0], o.meta, cfg) {
            let defs = definitions(form, kind, file, o.meta.name);
            let keys = if kind == DefKind::Defmethod {
                component_definitions(form, o.meta, file)
            } else {
                Seq::empty()
            };
            crate::handlers::references::lemma_concat_contains(o.symbols, defs, s);
            crate::handlers::references::lemma_concat_contains(o.symbols + defs, keys, s);
        }
    }
}

/// Whether the symbol is defined at the top level: by the list at `k`, or by the list of the branch
/// at `b` of the reader conditional at `k`.
pub open spec fn defined_at(
    root: FormView,
    file: Seq<char>,
    cfg: ExtractConfigView,
    s: SymbolView,
    k: int,
    b: int,
) -> bool {
    &&& 0 <= k < root.children.len()
    &&& {
        ||| list_defines(root.children[k], outline(root, k as nat, file, cfg).meta, file, cfg, s)
        ||| root.children[k].kind == Kind::ReadCondLit && 0 <= b && 2 * b + 1
            < root.children[k].children.len() && list_defines(
            root.children[k].children[2 * b + 1],
            top_level_branches(
                root.children[k],
                b as nat,
                outline(root, k as nat, file, cfg),
                file,
                cfg,
            ).meta,
            file,
            cfg,
            s,
        )
    }
}

/// Whether the list of the branch at `b` defines the symbol.
spec fn branch_defines(
    cond: FormView,
    o: Outline,
    file: Seq<char>,
    cfg: ExtractConfigView,
    s: SymbolView,
    b: int,
) -> bool {
    0 <= b && 2 * b + 1 < cond.children.len() && list_defines(
        cond.children[2 * b + 1],
        top_level_branches(cond, b as nat, o, file, cfg).meta,
        file,
        cfg,
        s,
    )
}

proof fn lemma_top_level_branches(
    cond: FormView,
    n: nat,
    o: Outline,
    file: Seq<char>,
    cfg: ExtractConfigView,
    s: SymbolView,
)
    requires
        2 * n <= cond.children.len(),
    ensures
        top_level_branches(cond, n, o, file, cfg).symbols.contains(s) <==> o.symbols.contains(s)
            || exists|b: int| b < n && #[trigger] branch_defines(cond, o, file, cfg, s, b),
    decreases n,
{
    if n > 0 {
        let before = top_level_branches(cond, (n - 1) as nat, o, file, cfg);
        lemma_top_level_branches(cond, (n - 1) as nat, o, file, cfg, s);
        let form = cond.children[2 * n - 1];
        let last = branch_defines(cond, o, file, cfg, s, n - 1);
        if form.kind == Kind::ListLit {
            lemma_top_level_list(form, before, file, cfg, s);
        }
        if exists|b: int| b < n && #[trigger] branch_defines(cond, o, file, cfg, s, b) {
            let b = choose|b: int| b < n && #[trigger] branch_defines(cond, o, file, cfg, s, b);
            if b < n - 1 {
                assert(before.symbols.contains(s));
            }
        }
    }
}

proof fn lemma_outline_symbols(
    root: FormView,
    n: nat,
    file: Seq<char>,
    cfg: ExtractConfigView,
    s: SymbolView,
)
    requires
        n <= root.children.len(),
    ensures
        outline(root, n, file, cfg).symbols.contains(s) <==> exists|k: int, b: int|
            k < n && #[trigger] defined_at(root, file, cfg, s, k, b),
    decreases n,
{
    if n > 0 {
        let before = outline(root, (n - 1) as nat, file, cfg);
        lemma_outline_symbols(root, (n - 1) as nat, file, cfg, s);
        let form = root.children[n - 1];
        if form.kind == Kind::ListLit {
            lemma_top_level_list(form, before, file, cfg, s);
            if list_defines(form, before.meta, file, cfg, s) {
                assert(defined_at(root, file, cfg, s, n - 1, 0));
            }
        } else if form.kind == Kind::ReadCondLit {
            lemma_top_level_branches(form, form.children.len() / 2, before, file, cfg, s);
            if exists|b: int| #[trigger]
                branch_defines(form, before, file, cfg, s, b) {
                let b = choose|b: int| #[trigger] branch_defines(form, before, file, cfg, s, b);
                assert(defined_at(root, file, cfg, s, n - 1, b));
            }
        }
        if exists|k: int, b: int| k < n && #[trigger] defined_at(root, file, cfg, s, k, b) {
            let (k, b) = choose|k: int, b: int|
                k < n && #[trigger] defined_at(root, file, cfg, s, k, b);
            if k < n - 1 {
                assert(before.symbols.contains(s));
            } else if form.kind == Kind::ReadCondLit {
                assert(branch_defines(form, before, file, cfg, s, b));
                assert(b < form.children.len() / 2);
            }
        }
        if exists|k: int, b: int| k < n - 1 && #[trigger] defined_at(root, file, cfg, s, k, b) {
            let (k, b) = choose|k: int, b: int|
                k < n - 1 && #[trigger] defined_at(root, file, cfg, s, k, b);
            assert(defined_at(root, file, cfg, s, k, b));
        }
    } else {
        assert(outline(root, n, file, cfg).symbols =~= Seq::empty());
    }
}

/// The outline of a file holds what every list at its top level defines, and every list of a
/// reader conditional there, whatever the platform; and nothing else.
pub proof fn law_outline_holds_every_top_level_definition(
    root: FormView,
    file: Seq<char>,
    cfg: ExtractConfigView,
    s: SymbolView,
)
    ensures
        file_outline(root, file, cfg).symbols.contains(s) <==> exists|k: int, b: int| #[trigger]
            defined_at(root, file, cfg, s, k, b),
{
    lemma_outline_symbols(root, root.children.len(), file, cfg, s);
    if exists|k: int, b: int| #[trigger] defined_at(root, file, cfg, s, k, b) {
        let (k, b) = choose|k: int, b: int| #[trigger] defined_at(root, file, cfg, s, k, b);
        assert(k < root.children.len());
    }
}

/// A name that is referred to means what it was referred from, a qualified one what its alias
/// stands for, and any other name one of the file's own namespace.
pub proof fn law_head_means_its_namespace(head: FormView, meta: NsMetaView)
    requires
        sym_name(head).len() > 0,
    ensures
        head.namespace matches Some(p) ==> {
            &&& dict_get(meta.aliases, p.text) matches Some(ns) ==> head_fqn(head, meta) == Some(
                ns + "/"@ + sym_name(head),
            )
            &&& dict_get(meta.aliases, p.text) is None ==> head_fqn(head, meta) == Some(
                p.text + "/"@ + sym_name(head),
            )
        },
        head.namespace is None ==> {
            &&& dict_get(meta.refers, sym_name(head)) matches Some(fqn) ==> head_fqn(head, meta)
                == Some(fqn)
            &&& dict_get(meta.refers, sym_name(head)) is None && meta.name.len() > 0 ==> head_fqn(
                head,
                meta,
            ) == Some(meta.name + "/"@ + sym_name(head))
        },
{
}

/// A configured macro defines what the configuration says, before what is built in.
pub proof fn law_configuration_goes_first(
    fqn: Seq<char>,
    lint_as: Seq<(Seq<char>, DefKind)>,
)
    ensures
        dict_get(lint_as, fqn) matches Some(kind) ==> macro_kind(fqn, lint_as) == Some(kind),
        dict_get(lint_as, fqn) is None && (fqn == "clojure.test/deftest"@ || fqn
            == "clojure.test/deftest-"@) ==> macro_kind(fqn, lint_as) == Some(DefKind::Deftest),
        dict_get(lint_as, fqn) is None && fqn != "clojure.test/deftest"@ && fqn
            != "clojure.test/deftest-"@ ==> macro_kind(fqn, lint_as) is None,
{
}

/// A head defines by what it means; one that is neither qualified nor referred to may also be a
/// macro of a namespace that is referred to in full, of the first that has it.
pub proof fn law_macro_is_found_by_its_meaning(
    head: FormView,
    meta: NsMetaView,
    lint_as: Seq<(Seq<char>, DefKind)>,
    fqn: Seq<char>,
    kind: DefKind,
    k: int,
)
    requires
        sym_name(head).len() > 0,
    ensures
        head_fqn(head, meta) == Some(fqn) && macro_kind(fqn, lint_as) == Some(kind)
            ==> macro_definition(head, meta, lint_as) == Some((fqn, kind)),
        head.namespace is Some && head_fqn(head, meta) == Some(fqn) && macro_kind(fqn, lint_as)
            is None ==> macro_definition(head, meta, lint_as) is None,
        head.namespace is None && dict_get(meta.refers, sym_name(head)) is None && (head_fqn(
            head,
            meta,
        ) matches Some(own) ==> macro_kind(own, lint_as) is None) && 0 <= k < meta.refer_all.len()
            && macro_kind(meta.refer_all[k] + "/"@ + sym_name(head), lint_as) == Some(kind) && (forall|
            j: int,
        |
            0 <= j < k ==> macro_kind(
                (#[trigger] meta.refer_all[j]) + "/"@ + sym_name(head),
                lint_as,
            ) is None) ==> macro_definition(head, meta, lint_as) == Some(
            (meta.refer_all[k] + "/"@ + sym_name(head), kind),
        ),
{
    if 0 <= k < meta.refer_all.len() && macro_kind(
        meta.refer_all[k] + "/"@ + sym_name(head),
        lint_as,
    ) == Some(kind) && (forall|j: int|
        0 <= j < k ==> macro_kind((#[trigger] meta.refer_all[j]) + "/"@ + sym_name(head), lint_as)
            is None) {
        lemma_first_macro(meta.refer_all, 0, sym_name(head), lint_as, kind, k);
    }
}

proof fn lemma_first_macro(
    refer_all: Seq<Seq<char>>,
    i: nat,
    name: Seq<char>,
    lint_as: Seq<(Seq<char>, DefKind)>,
    kind: DefKind,
    k: int,
)
    requires
        i <= k < refer_all.len(),
        macro_kind(refer_all[k] + "/"@ + name, lint_as) == Some(kind),
        forall|j: int|
            i <= j < k ==> macro_kind((#[trigger] refer_all[j]) + "/"@ + name, lint_as) is None,
    ensures
        referred_macro(refer_all, i, name, lint_as) == Some((refer_all[k] + "/"@ + name, kind)),
    decreases k - i,
{
    if i < k {
        assert(macro_kind(refer_all[i as int] + "/"@ + name, lint_as) is None);
        lemma_first_macro(refer_all, i + 1, name, lint_as, kind, k);
    }
}

/// A component is defined by a method of Integrant's `init-key` for a keyword, and stands where the
/// keyword stands.
pub proof fn law_init_key_defines_a_component(form: FormView, meta: NsMetaView, file: Seq<char>)
    requires
        form.children.len() > 2,
        form.children[1].kind == Kind::SymLit,
        form.children[2].kind == Kind::KwdLit,
    ensures
        multifn_fqn(form, meta) != Some("integrant.core/init-key"@) ==> component_definitions(
            form,
            meta,
            file,
        ) == Seq::<SymbolView>::empty(),
        multifn_fqn(form, meta) == Some("integrant.core/init-key"@) ==> (keyword_name(
            form.children[2],
            meta,
        ) matches Some(fqn) ==> {
            let all = component_definitions(form, meta, file);
            &&& all.len() == 1
            &&& all[0].fqn == fqn && all[0].kind == DefKind::IntegrantKey && all[0].file == file
            &&& all[0].name_range == form.children[2].range && all[0].range == form.range
        }),
        form.children[1].namespace matches Some(p) ==> (dict_get(meta.aliases, p.text) matches Some(
            ns,
        ) ==> multifn_fqn(form, meta) == Some(ns + "/"@ + sym_name(form.children[1]))),
{
}

}
